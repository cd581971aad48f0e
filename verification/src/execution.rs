//! What the rows of one batch share, and how a batch is cut into chunks.
use std::sync::Arc;

use vstd::layout::size_of;
use vstd::prelude::*;
use vstd::utf8::encode_utf8;

use crate::errors::{ErrorKind, Fault, JevError};
use crate::questions::maybe_text;
use crate::text::{decimal, decimal_text, join3};

verus! {

/// The errors of the query engine.
#[verifier::external_type_specification]
#[verifier::external_body]
pub struct ExDataFusionError(datafusion::common::DataFusionError);

/// A share of the memory of a query.
#[verifier::external_type_specification]
#[verifier::external_body]
pub struct ExMemoryReservation(datafusion::execution::memory_pool::MemoryReservation);

/// How many bytes a query has reserved.
pub uninterp spec fn reserved(
    reservation: datafusion::execution::memory_pool::MemoryReservation,
) -> nat;

/// `MemoryReservation::try_grow`: the pool of the query grants more bytes, which are
/// then reserved, or refuses, which changes nothing. Which of the two is up to the
/// pool. Nothing is said of a reservation that would pass the largest machine
/// integer.
#[verifier::external_body]
fn grow(
    reservation: &mut datafusion::execution::memory_pool::MemoryReservation,
    bytes: usize,
) -> (result: Result<(), datafusion::common::DataFusionError>)
    ensures
        result is Ok && reserved(*old(reservation)) + bytes <= usize::MAX ==> reserved(
            *final(reservation),
        ) == reserved(*old(reservation)) + bytes,
        result is Err ==> reserved(*final(reservation)) == reserved(*old(reservation)),
{
    reservation.try_grow(bytes)
}

/// `MemoryReservation::shrink` gives reserved bytes back.
#[verifier::external_body]
fn shrink(reservation: &mut datafusion::execution::memory_pool::MemoryReservation, bytes: usize)
    requires
        bytes <= reserved(*old(reservation)),
    ensures
        reserved(*final(reservation)) == reserved(*old(reservation)) - bytes,
{
    reservation.shrink(bytes);
}

/// `MemoryReservation::size`: how many bytes are reserved.
#[verifier::external_body]
fn reserved_bytes(reservation: &datafusion::execution::memory_pool::MemoryReservation) -> (bytes:
    usize)
    ensures
        bytes == reserved(*reservation),
{
    reservation.size()
}

/// Whether an error of the query engine is that of an exhausted resource.
pub uninterp spec fn exhausts(error: datafusion::common::DataFusionError) -> bool;

/// The kind and the text of an error of the query engine: an exhausted resource with
/// its own text, and any other error with the text in which it is shown. Nothing is said
/// of the text.
#[verifier::external_body]
fn engine_error(error: datafusion::common::DataFusionError) -> (parts: (ErrorKind, String))
    ensures
        parts.0 == (if exhausts(error) {
            ErrorKind::ResourcesExhausted
        } else {
            ErrorKind::Engine
        }),
{
    match error {
        datafusion::common::DataFusionError::ResourcesExhausted(message) => (
            ErrorKind::ResourcesExhausted,
            message,
        ),
        other => (ErrorKind::Engine, other.to_string()),
    }
}

/// An error of the query engine as an error of the library. An exhausted resource stays
/// one.
pub fn refused(error: datafusion::common::DataFusionError) -> (result: JevError)
    ensures
        result.kind == (if exhausts(error) {
            ErrorKind::ResourcesExhausted
        } else {
            ErrorKind::Engine
        }),
{
    let (kind, message) = engine_error(error);
    JevError { kind, message }
}

/// An error for memory that cannot be had.
fn exhausted(message: &str) -> (error: JevError)
    ensures
        error@ == exhausted_fault(message@),
{
    JevError { kind: ErrorKind::ResourcesExhausted, message: message.to_owned() }
}

/// A response that several rows share; none stands for a request that failed.
pub type CachedRaw = Option<Arc<str>>;

/// The text of a response that may have failed.
pub open spec fn raw_text(raw: CachedRaw) -> Option<Seq<char>> {
    match raw {
        Some(text) => Some((*text)@),
        None => None,
    }
}

/// The responses of a batch by the fingerprints of their requests, in the hash table
/// of the query engine.
#[verifier::external_body]
pub struct CacheIndex {
    values: datafusion::common::HashMap<[u8; 32], CachedRaw>,
}

/// The responses that an index holds, by fingerprint.
pub uninterp spec fn responses(index: CacheIndex) -> Map<Seq<u8>, Option<Seq<char>>>;

/// Whether an index has room for one more response as it is.
pub uninterp spec fn spare(index: CacheIndex) -> bool;

/// No responses at all.
pub open spec fn no_responses() -> Map<Seq<u8>, Option<Seq<char>>> {
    Map::empty()
}

impl CacheIndex {
    /// `HashMap::default` is empty, and takes nothing without growing.
    #[verifier::external_body]
    fn new() -> (index: CacheIndex)
        ensures
            responses(index) == no_responses(),
            !spare(index),
    {
        CacheIndex { values: datafusion::common::HashMap::default() }
    }

    /// `HashMap::get`: the response under a fingerprint, if there is one.
    #[verifier::external_body]
    fn get(&self, key: &[u8; 32]) -> (value: Option<CachedRaw>)
        ensures
            value is Some == responses(*self).contains_key(key@),
            value matches Some(raw) ==> responses(*self)[key@] == raw_text(raw),
    {
        self.values.get(key).cloned()
    }

    /// `HashMap::insert` puts a response under a fingerprint. Without room for one more it
    /// would have to grow, which it does not survive where the allocator refuses.
    #[verifier::external_body]
    fn insert(&mut self, key: [u8; 32], value: CachedRaw)
        requires
            spare(*old(self)),
        ensures
            responses(*final(self)) == responses(*old(self)).insert(key@, raw_text(value)),
    {
        self.values.insert(key, value);
    }

    /// `HashMap::len`: how many responses there are.
    #[verifier::external_body]
    fn len(&self) -> (count: usize)
        ensures
            count == responses(*self).len(),
    {
        self.values.len()
    }

    /// `HashMap::capacity`: how many responses there is room for without growing, at least
    /// as many as there are.
    #[verifier::external_body]
    fn capacity(&self) -> (count: usize)
        ensures
            count >= responses(*self).len(),
            count > responses(*self).len() <==> spare(*self),
    {
        self.values.capacity()
    }

    /// `HashMap::allocation_size`: how many bytes the table takes. Where it has room it
    /// takes some; how many is up to the allocator.
    #[verifier::external_body]
    fn allocation_size(&self) -> (bytes: usize)
        ensures
            spare(*self) ==> bytes > 0,
    {
        self.values.allocation_size()
    }

    /// `HashMap::try_reserve` makes room for one more response, or fails; either way
    /// it keeps the responses.
    #[verifier::external_body]
    fn try_reserve(&mut self) -> (made: bool)
        ensures
            responses(*final(self)) == responses(*old(self)),
            made ==> spare(*final(self)),
            !made ==> spare(*final(self)) == spare(*old(self)),
    {
        self.values.try_reserve(1).is_ok()
    }
}

/// A shared text with the characters of a text, as `Arc::from` makes it.
#[verifier::external_body]
fn share(text: String) -> (shared: Arc<str>)
    ensures
        (*shared)@ == text@,
{
    Arc::<str>::from(text)
}

/// The fingerprint of a request.
pub type RequestKey = [u8; 32];

/// The SHA-256 hash of some bytes.
pub uninterp spec fn sha256_of(bytes: Seq<u8>) -> Seq<u8>;

/// The function `sha256` of the query engine on one binary value: the hash of its
/// bytes, which is binary again and has 32 bytes. The settings of the session do not
/// enter it.
#[verifier::external_body]
fn sha256(bytes: Vec<u8>) -> (hash: Option<Vec<u8>>)
    ensures
        hash matches Some(hash) && hash@ == sha256_of(bytes@) && hash@.len() == 32,
{
    let binary = arrow::datatypes::DataType::Binary;
    let field = Arc::new(arrow::datatypes::Field::new("canonical_request", binary, false));
    let value = datafusion::common::ScalarValue::Binary(Some(bytes));
    let arguments = datafusion::logical_expr::ScalarFunctionArgs {
        args: vec![datafusion::logical_expr::ColumnarValue::Scalar(value)],
        arg_fields: vec![field.clone()],
        number_rows: 1,
        return_field: field,
        config_options: Arc::new(datafusion::common::config::ConfigOptions::default()),
    };
    match datafusion::functions::crypto::sha256().invoke_with_args(arguments).ok()? {
        datafusion::logical_expr::ColumnarValue::Scalar(
            datafusion::common::ScalarValue::Binary(hash)) => hash,
        _ => None,
    }
}

/// An error for a state that the library rules out.
fn internal(message: &str) -> (error: JevError)
    ensures
        error@ == (Fault { kind: ErrorKind::Internal, message: message@ }),
{
    JevError { kind: ErrorKind::Internal, message: message.to_owned() }
}

/// The fingerprint of a request: the hash of its one byte form.
pub fn fingerprint(bytes: Vec<u8>) -> (result: Result<RequestKey, JevError>)
    ensures
        result matches Ok(key) && key@ == sha256_of(bytes@),
{
    let hash = match sha256(bytes) {
        Some(hash) => hash,
        None => {
            return Err(internal("invalid Jev SHA-256 fingerprint type"));
        },
    };
    if hash.len() != 32 {
        return Err(internal("invalid Jev SHA-256 fingerprint length"));
    }
    let mut key: RequestKey = [0u8;32];
    for at in 0..32usize
        invariant
            hash@.len() == 32,
            key@.len() == 32,
            forall|i: int| 0 <= i < at ==> key@[i] == hash@[i],
    {
        key[at] = hash[at];
    }
    assert(key@ =~= hash@);
    Ok(key)
}

/// Exact deduplication within one batch: nothing is evicted and no capacity is
/// bypassed. The input, the table and the responses are charged to the memory of the
/// query. Where that does not suffice the query fails, rather than paying for a
/// duplicate later.
pub struct BatchCache {
    values: CacheIndex,
    reservation: datafusion::execution::memory_pool::MemoryReservation,
    /// How many bytes are charged for the table.
    charged: usize,
    /// How many bytes the table takes.
    allocated: usize,
}

impl BatchCache {
    /// The responses that the cache holds, by fingerprint.
    pub closed spec fn view(&self) -> Map<Seq<u8>, Option<Seq<char>>> {
        responses(self.values)
    }

    /// How many bytes the cache has reserved.
    pub closed spec fn bytes(&self) -> nat {
        reserved(self.reservation)
    }

    /// How many of the reserved bytes are for the table.
    pub closed spec fn table_bytes(&self) -> nat {
        self.charged as nat
    }

    /// How many bytes the table takes.
    pub closed spec fn allocated(&self) -> nat {
        self.allocated as nat
    }

    /// Whether the table has room for one more response as it is.
    pub closed spec fn has_room(&self) -> bool {
        spare(self.values)
    }

    /// How many bytes the cache has reserved for its input and its responses.
    pub open spec fn content_bytes(&self) -> int {
        self.bytes() - self.table_bytes()
    }

    /// Whether the table is charged for.
    pub open spec fn well_formed(&self) -> bool {
        self.table_bytes() <= self.bytes()
    }

    /// A cache for one batch, charged for the bytes of its input.
    pub fn new(
        reservation: datafusion::execution::memory_pool::MemoryReservation,
        input_bytes: usize,
    ) -> (result: Result<BatchCache, JevError>)
        ensures
            match result {
                Ok(cache) => {
                    &&& cache.well_formed()
                    &&& cache@ == no_responses()
                    &&& !cache.has_room()
                    &&& cache.table_bytes() == 0
                    &&& cache.allocated() == 0
                    &&& reserved(reservation) + input_bytes <= usize::MAX ==> cache.bytes()
                        == reserved(reservation) + input_bytes
                },
                Err(error) => error.kind == ErrorKind::ResourcesExhausted || error.kind
                    == ErrorKind::Engine,
            },
    {
        let mut reservation = reservation;
        match grow(&mut reservation, input_bytes) {
            Ok(_) => Ok(
                BatchCache {
                    values: CacheIndex::new(),
                    reservation,
                    charged: 0,
                    allocated: 0,
                },
            ),
            Err(error) => Err(refused(error)),
        }
    }

    /// The response under a fingerprint, if there is one.
    pub fn get(&self, key: &RequestKey) -> (value: Option<CachedRaw>)
        ensures
            value is Some == self@.contains_key(key@),
            value matches Some(raw) ==> self@[key@] == raw_text(raw),
    {
        self.values.get(key)
    }

    /// How many responses the cache holds.
    pub fn len(&self) -> (count: usize)
        ensures
            count == self@.len(),
    {
        self.values.len()
    }

    /// How many bytes the cache has reserved.
    pub fn reserved(&self) -> (bytes: usize)
        ensures
            bytes == self.bytes(),
    {
        reserved_bytes(&self.reservation)
    }
}

/// The name under which a cache is known to the memory of the query.
pub fn consumer_name(partition: usize) -> (name: String)
    ensures
        name@ == "JevExec["@ + decimal(partition as nat) + "] batch cache"@,
{
    join3("JevExec[", decimal_text(partition as u64).as_str(), "] batch cache")
}

/// How many bytes a response is charged for: its bytes, and three machine words for
/// the two counters of the shared text and its alignment. A failure is not charged
/// for.
pub open spec fn response_bytes(response: Option<Seq<char>>) -> nat {
    match response {
        Some(text) => encode_utf8(text).len() + 3 * size_of::<usize>(),
        None => 0,
    }
}

/// Whether an error is one of memory or of the query engine, which no policy hides.
pub open spec fn refusal(error: JevError) -> bool {
    error.kind == ErrorKind::ResourcesExhausted || error.kind == ErrorKind::Engine
}

/// An error for memory that cannot be had.
pub open spec fn exhausted_fault(message: Seq<char>) -> Fault {
    Fault { kind: ErrorKind::ResourcesExhausted, message }
}

/// The error for a table that takes more than was reserved for it.
pub open spec fn outgrown() -> Fault {
    exhausted_fault("Jev cache index exceeded its reserved allocation"@)
}

/// The error for a table that would need more bytes than a machine can count.
pub open spec fn overflown() -> Fault {
    exhausted_fault("Jev cache index size overflow"@)
}

/// The error for a table that the allocator refuses.
pub open spec fn unallocated() -> Fault {
    exhausted_fault("could not allocate Jev batch cache index"@)
}

/// The error for a response that would need more bytes than a machine can count.
pub open spec fn response_overflown() -> Fault {
    exhausted_fault("Jev cached response size overflow"@)
}

/// How many bytes are reserved for a table that takes the place of a full one, by what
/// the full one takes: room for four entries to begin with, and then twice as much.
pub open spec fn growth(allocated: nat) -> nat {
    if allocated == 0 {
        4 * size_of::<(RequestKey, CachedRaw)>() + 64
    } else {
        2 * allocated
    }
}

/// How many more bytes are asked of the pool before a full table grows, by what the
/// table takes and by how many bytes are reserved already.
pub fn table_growth(allocated: usize, reserved: usize) -> (result: Result<usize, JevError>)
    ensures
        match result {
            Ok(bytes) => bytes == growth(allocated as nat) && reserved + bytes <= usize::MAX,
            Err(error) => reserved + growth(allocated as nat) > usize::MAX && error@ == overflown(),
        },
{
    let bytes = if allocated == 0 {
        match std::mem::size_of::<(RequestKey, CachedRaw)>().checked_mul(4) {
            Some(entries) => entries.checked_add(64),
            None => None,
        }
    } else {
        allocated.checked_mul(2)
    };
    match bytes {
        Some(bytes) => if reserved.checked_add(bytes).is_some() {
            Ok(bytes)
        } else {
            Err(exhausted("Jev cache index size overflow"))
        },
        None => Err(exhausted("Jev cache index size overflow")),
    }
}

/// How many bytes are given back once a table was to grow, by what was charged for it
/// before, what was reserved in addition, and what it takes now; the last is missing where
/// the allocator refused.
pub fn settle(charged: usize, additional: usize, taken: Option<usize>) -> (result: Result<
    usize,
    JevError,
>)
    requires
        charged + additional <= usize::MAX,
    ensures
        match (taken, result) {
            (Some(taken), Ok(unused)) => unused == charged + additional - taken,
            (Some(taken), Err(error)) => taken > charged + additional && error@ == outgrown(),
            (None, Ok(_)) => false,
            (None, Err(error)) => error@ == unallocated(),
        },
{
    match taken {
        Some(taken) => match (charged + additional).checked_sub(taken) {
            Some(unused) => Ok(unused),
            None => Err(exhausted("Jev cache index exceeded its reserved allocation")),
        },
        None => Err(exhausted("could not allocate Jev batch cache index")),
    }
}

/// How many bytes are asked of the pool for a response, by the length of its text and by
/// how many bytes are reserved already.
pub fn response_charge(length: usize, reserved: usize) -> (result: Result<usize, JevError>)
    ensures
        match result {
            Ok(bytes) => bytes == length + 3 * size_of::<usize>() && reserved + bytes
                <= usize::MAX,
            Err(error) => reserved + length + 3 * size_of::<usize>() > usize::MAX && error@
                == response_overflown(),
        },
{
    // The two counters of the shared text and its alignment, and its bytes.
    let bytes = match std::mem::size_of::<usize>().checked_mul(3) {
        Some(counters) => length.checked_add(counters),
        None => None,
    };
    match bytes {
        Some(bytes) => if reserved.checked_add(bytes).is_some() {
            Ok(bytes)
        } else {
            Err(exhausted("Jev cached response size overflow"))
        },
        None => Err(exhausted("Jev cached response size overflow")),
    }
}

impl BatchCache {
    /// Reserves room in the table before a new request is paid for. A table that has
    /// room stays as it is. A full table grows by doubling: both the old and the new one
    /// are charged until the growth is over, and then what the table really takes. What
    /// is reserved for the input and the responses stays reserved. Whether a full table
    /// can grow, and how much it then takes, is up to the allocator and to the pool of
    /// the query; where one of them refuses, nothing changes.
    pub fn prepare(&mut self) -> (result: Result<(), JevError>)
        requires
            old(self).well_formed(),
        ensures
            final(self)@ == old(self)@,
            final(self).well_formed(),
            final(self).content_bytes() == old(self).content_bytes(),
            old(self).has_room() ==> result is Ok && *final(self) == *old(self),
            match result {
                Ok(_) => {
                    &&& final(self).has_room()
                    &&& !old(self).has_room() ==> {
                        &&& old(self).bytes() + growth(old(self).allocated()) <= usize::MAX
                        &&& final(self).table_bytes() == final(self).allocated()
                        &&& 0 < final(self).table_bytes() <= old(self).table_bytes() + growth(
                            old(self).allocated(),
                        )
                    }
                },
                Err(error) => if old(self).bytes() + growth(old(self).allocated())
                    > usize::MAX {
                    error@ == overflown() && *final(self) == *old(self)
                } else {
                    ||| (error@ == unallocated() || refusal(error)) && !final(self).has_room()
                        && final(self).bytes() == old(self).bytes() && final(self).allocated()
                        == old(self).allocated()
                    ||| error@ == outgrown() && final(self).has_room() && final(self).bytes()
                        == old(self).bytes() + growth(old(self).allocated())
                        && final(self).allocated() > final(self).table_bytes()
                },
            },
    {
        if self.values.len() < self.values.capacity() {
            return Ok(());
        }
        let additional = match table_growth(self.allocated, reserved_bytes(&self.reservation)) {
            Ok(additional) => additional,
            Err(error) => {
                return Err(error);
            },
        };
        if let Err(error) = grow(&mut self.reservation, additional) {
            return Err(refused(error));
        }
        let taken: Option<usize> = if self.values.try_reserve() {
            Some(self.values.allocation_size())
        } else {
            None
        };
        let settled = settle(self.charged, additional, taken);
        match taken {
            Some(taken) => {
                self.allocated = taken;
            },
            None => {
                shrink(&mut self.reservation, additional);
            },
        }
        match settled {
            Ok(unused) => {
                shrink(&mut self.reservation, unused);
                self.charged = self.allocated;
                Ok(())
            },
            Err(error) => {
                if taken.is_some() {
                    self.charged = self.charged + additional;
                }
                Err(error)
            },
        }
    }

    /// Puts a response under a fingerprint that has none yet, and gives the response
    /// that is then there. What is already there stays. Room in the table is made before a
    /// new response is put, which is charged for. Where the memory for it cannot be had, nothing is put and nothing is charged
    /// for it; a failure takes none where the table has room.
    pub fn insert(&mut self, key: RequestKey, value: Option<String>) -> (result: Result<
        CachedRaw,
        JevError,
    >)
        requires
            old(self).well_formed(),
        ensures
            final(self).well_formed(),
            match result {
                Ok(raw) => if old(self)@.contains_key(key@) {
                    *final(self) == *old(self) && raw_text(raw) == old(self)@[key@]
                } else {
                    &&& final(self)@ == old(self)@.insert(key@, raw_text(raw))
                    &&& raw_text(raw) == maybe_text(value)
                    &&& final(self).content_bytes() == old(self).content_bytes() + response_bytes(
                        maybe_text(value),
                    )
                    &&& if old(self).has_room() {
                        final(self).table_bytes() == old(self).table_bytes()
                            && final(self).allocated() == old(self).allocated()
                    } else {
                        final(self).table_bytes() == final(self).allocated()
                            && 0 < final(self).table_bytes() <= old(self).table_bytes() + growth(
                            old(self).allocated(),
                        )
                    }
                },
                Err(error) => {
                    &&& final(self)@ == old(self)@
                    &&& !old(self)@.contains_key(key@)
                    &&& refusal(error)
                    &&& final(self).content_bytes() == old(self).content_bytes()
                    &&& old(self).has_room() ==> {
                        &&& value is Some
                        &&& final(self).bytes() == old(self).bytes()
                        &&& final(self).allocated() == old(self).allocated()
                        &&& final(self).has_room()
                    }
                },
            },
            old(self).has_room() && !old(self)@.contains_key(key@) && old(self).bytes()
                + response_bytes(maybe_text(value)) > usize::MAX && value is Some ==> (
            result matches Err(error) && error@ == response_overflown()),
            !old(self).has_room() && !old(self)@.contains_key(key@) && old(self).bytes() + growth(
                old(self).allocated(),
            ) > usize::MAX ==> (result matches Err(error) && error@ == overflown()),
    {
        if let Some(cached) = self.get(&key) {
            return Ok(cached);
        }
        if let Err(error) = self.prepare() {
            return Err(error);
        }
        let value: CachedRaw = match value {
            Some(text) => {
                let length = text.as_str().as_bytes().len();
                let bytes = match response_charge(length, reserved_bytes(&self.reservation)) {
                    Ok(bytes) => bytes,
                    Err(error) => {
                        return Err(error);
                    },
                };
                if let Err(error) = grow(&mut self.reservation, bytes) {
                    return Err(refused(error));
                }
                Some(share(text))
            },
            None => None,
        };
        let stored: CachedRaw = match &value {
            Some(text) => Some(text.clone()),
            None => None,
        };
        self.values.insert(key, stored);
        Ok(value)
    }
}

/// How a stream of batches is cut into chunks, each of which is judged before the
/// next one is looked at.
#[derive(Debug)]
pub struct ChunkState {
    chunk_size: usize,
    rows: usize,
    offset: usize,
}

/// What an operator does next.
#[derive(Debug, Clone, Copy, PartialEq, Eq, Structural)]
pub enum ChunkStep {
    /// Let go of the batch and of what its rows shared, and ask for the next batch.
    NextBatch,
    /// Judge some rows of the batch.
    Slice { offset: usize, size: usize },
}

/// How many rows are judged at a time: one where rows may turn out not to be needed,
/// and else a batch of the size that the session asks for.
pub open spec fn chunk_rows(demand: bool, batch_size: usize) -> nat {
    if demand || batch_size == 0 {
        1
    } else {
        batch_size as nat
    }
}

/// The chunks of a batch from an offset on, each by its offset and its size.
pub open spec fn chunks(rows: nat, chunk: nat, offset: nat) -> Seq<(nat, nat)>
    decreases rows - offset,
    when chunk > 0
{
    if offset >= rows {
        Seq::empty()
    } else {
        let size = if chunk <= rows - offset { chunk } else { (rows - offset) as nat };
        seq![(offset, size)] + chunks(rows, chunk, offset + size)
    }
}

impl ChunkState {
    /// How many rows are judged at a time.
    pub closed spec fn chunk(&self) -> nat {
        self.chunk_size as nat
    }

    /// The chunks of the batch that are still to come.
    pub closed spec fn left(&self) -> Seq<(nat, nat)> {
        chunks(self.rows as nat, self.chunk_size as nat, self.offset as nat)
    }

    /// Whether chunks hold rows.
    pub closed spec fn well_formed(&self) -> bool {
        self.chunk_size > 0 && self.offset <= self.rows
    }

    /// A stream of which no batch has come yet.
    pub fn new(demand: bool, batch_size: usize) -> (state: ChunkState)
        ensures
            state.well_formed(),
            state.chunk() == chunk_rows(demand, batch_size),
            state.left() == Seq::<(nat, nat)>::empty(),
    {
        let chunk_size: usize = if demand || batch_size == 0 { 1 } else { batch_size };
        ChunkState { chunk_size, rows: 0, offset: 0 }
    }

    /// Takes a new batch.
    pub fn begin(&mut self, rows: usize)
        requires
            old(self).well_formed(),
        ensures
            final(self).well_formed(),
            final(self).chunk() == old(self).chunk(),
            final(self).left() == chunks(rows as nat, old(self).chunk(), 0),
    {
        self.rows = rows;
        self.offset = 0;
    }

    /// The next chunk of the batch, or the wish for another batch.
    pub fn step(&mut self) -> (step: ChunkStep)
        requires
            old(self).well_formed(),
        ensures
            final(self).well_formed(),
            final(self).chunk() == old(self).chunk(),
            match step {
                ChunkStep::NextBatch => old(self).left().len() == 0 && final(self).left().len()
                    == 0,
                ChunkStep::Slice { offset, size } => old(self).left() == seq![
                    (offset as nat, size as nat),
                ] + final(self).left(),
            },
    {
        if self.offset >= self.rows {
            return ChunkStep::NextBatch;
        }
        let rest = self.rows - self.offset;
        let size = if self.chunk_size <= rest { self.chunk_size } else { rest };
        let offset = self.offset;
        self.offset = offset + size;
        ChunkStep::Slice { offset, size }
    }
}

/// The sum of the sizes of chunks.
pub open spec fn rows_in(chunks: Seq<(nat, nat)>) -> nat
    decreases chunks.len(),
{
    if chunks.len() == 0 {
        0
    } else {
        chunks[0].1 + rows_in(chunks.drop_first())
    }
}

/// The chunks of a batch hold each of its rows once and in order: they start at the
/// offset, each starts where the one before it ends, none is empty or larger than
/// asked for, and together they have the rows that were left.
pub proof fn chunks_cover_the_batch(rows: nat, chunk: nat, offset: nat)
    requires
        chunk > 0,
        offset <= rows,
    ensures
        ({
            let all = chunks(rows, chunk, offset);
            &&& rows_in(all) == rows - offset
            &&& offset < rows ==> all.len() > 0 && all[0].0 == offset
            &&& forall|i: int| 0 <= i < all.len() ==> 0 < (#[trigger] all[i]).1 <= chunk
            &&& forall|i: int|
                0 <= i < all.len() ==> (#[trigger] all[i]).0 + all[i].1 <= rows
            &&& forall|i: int, j: int|
                0 <= i && j == i + 1 && j < all.len() ==> (#[trigger] all[i]).0 + all[i].1 == (
                #[trigger] all[j]).0
        }),
    decreases rows - offset,
{
    if offset < rows {
        let size = if chunk <= rows - offset { chunk } else { (rows - offset) as nat };
        let rest = chunks(rows, chunk, offset + size);
        let all = chunks(rows, chunk, offset);
        chunks_cover_the_batch(rows, chunk, offset + size);
        assert(all.drop_first() =~= rest);
        assert forall|i: int| 0 <= i < all.len() implies 0 < (#[trigger] all[i]).1 <= chunk
            && all[i].0 + all[i].1 <= rows by {
            if i > 0 {
                assert(all[i] == rest[i - 1]);
            }
        }
        assert forall|i: int, j: int| 0 <= i && j == i + 1 && j < all.len() implies (
        #[trigger] all[i]).0 + all[i].1 == (#[trigger] all[j]).0 by {
            assert(all[j] == rest[j - 1]);
            if i > 0 {
                assert(all[i] == rest[i - 1]);
            } else {
                assert(offset + size < rows);
            }
        }
    }
}

} // verus!
