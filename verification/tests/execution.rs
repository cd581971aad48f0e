//! What the rows of a batch share.
use std::sync::Arc;

use datafusion::execution::memory_pool::{
    GreedyMemoryPool, MemoryConsumer, MemoryPool, UnboundedMemoryPool,
};
use datafusion::common::DataFusionError;
use jev_datafusion::execution::{
    consumer_name, fingerprint, refused, response_charge, settle, table_growth, BatchCache,
    ChunkState, ChunkStep,
};
use jev_datafusion::ErrorKind;

fn cache(pool: &Arc<dyn MemoryPool>, bytes: usize) -> BatchCache {
    let reservation = MemoryConsumer::new(consumer_name(0)).register(pool);
    BatchCache::new(reservation, bytes).unwrap()
}

fn key(index: u64) -> [u8; 32] {
    let mut key = [0; 32];
    key[..8].copy_from_slice(&index.to_le_bytes());
    key
}

#[test]
fn cache_reservations_release_and_never_bypass_capacity() {
    let pool: Arc<dyn MemoryPool> = Arc::new(GreedyMemoryPool::new(2 * 1024 * 1024));
    let mut cache = cache(&pool, 1024);
    for index in 0_u64..9000 {
        cache.prepare().unwrap();
        cache.insert(key(index), Some("response".into())).unwrap();
    }
    assert_eq!(cache.len(), 9000);
    assert!(pool.reserved() > 1024);
    assert_eq!(cache.reserved(), pool.reserved());
    assert_eq!(cache.get(&key(8999)).unwrap().unwrap().as_ref(), "response");
    let reserved = pool.reserved();
    let error = cache.insert([255; 32], Some("x".repeat(2 * 1024 * 1024))).unwrap_err();
    assert_eq!(error.kind, ErrorKind::ResourcesExhausted);
    assert_eq!(pool.reserved(), reserved);
    assert_eq!(cache.len(), 9000);
    drop(cache);
    assert_eq!(pool.reserved(), 0);
}

#[test]
fn a_response_is_kept_and_charged_once() {
    let pool: Arc<dyn MemoryPool> = Arc::new(UnboundedMemoryPool::default());
    let mut cache = cache(&pool, 100);
    assert_eq!(cache.reserved(), 100);
    assert!(cache.get(&key(1)).is_none());
    let kept = cache.insert(key(1), Some("first".into())).unwrap();
    assert_eq!(kept.unwrap().as_ref(), "first");
    let reserved = cache.reserved();
    assert!(reserved > 100 + "first".len());
    let kept = cache.insert(key(1), Some("second".into())).unwrap();
    assert_eq!(kept.unwrap().as_ref(), "first");
    assert_eq!(cache.reserved(), reserved);
    assert!(cache.insert(key(2), None).unwrap().is_none());
    assert!(matches!(cache.get(&key(2)), Some(None)));
    assert_eq!(cache.len(), 2);
}

#[test]
fn a_pool_that_refuses_is_an_error() {
    let pool: Arc<dyn MemoryPool> = Arc::new(GreedyMemoryPool::new(10));
    let reservation = MemoryConsumer::new(consumer_name(3)).register(&pool);
    let error = BatchCache::new(reservation, 11).err().unwrap();
    assert_eq!(error.kind, ErrorKind::ResourcesExhausted);
    assert!(error.message.contains("JevExec[3] batch cache"));
    assert_eq!(pool.reserved(), 0);
    let mut cache = cache(&pool, 0);
    assert_eq!(cache.prepare().unwrap_err().kind, ErrorKind::ResourcesExhausted);
    assert_eq!(cache.reserved(), 0);
}

#[test]
fn room_that_was_made_is_there_when_the_pool_is_full() {
    let pool: Arc<dyn MemoryPool> = Arc::new(GreedyMemoryPool::new(4096));
    let mut cache = cache(&pool, 0);
    cache.prepare().unwrap();
    let rest = MemoryConsumer::new("rest").register(&pool);
    rest.try_grow(4096 - pool.reserved()).unwrap();
    let reserved = cache.reserved();
    cache.prepare().unwrap();
    assert!(cache.insert(key(1), None).unwrap().is_none());
    assert_eq!(cache.reserved(), reserved);
    let error = cache.insert(key(2), Some("x".into())).unwrap_err();
    assert_eq!(error.kind, ErrorKind::ResourcesExhausted);
    assert_eq!((cache.len(), cache.reserved()), (1, reserved));
}

#[test]
fn tables_and_responses_are_charged_exactly() {
    let entry = std::mem::size_of::<([u8; 32], Option<Arc<str>>)>();
    assert_eq!(table_growth(0, 7).unwrap(), 4 * entry + 64);
    assert_eq!(table_growth(100, 7).unwrap(), 200);
    for (allocated, reserved) in [(usize::MAX / 2 + 1, 0), (100, usize::MAX - 199)] {
        let error = table_growth(allocated, reserved).unwrap_err();
        assert_eq!(error.kind, ErrorKind::ResourcesExhausted);
        assert_eq!(error.message, "Jev cache index size overflow");
    }
    assert_eq!(table_growth(100, usize::MAX - 200).unwrap(), 200);
    assert_eq!(settle(10, 20, Some(25)).unwrap(), 5);
    assert_eq!(settle(10, 20, Some(30)).unwrap(), 0);
    let error = settle(10, 20, Some(31)).unwrap_err();
    assert_eq!(error.message, "Jev cache index exceeded its reserved allocation");
    let error = settle(10, 20, None).unwrap_err();
    assert_eq!(error.kind, ErrorKind::ResourcesExhausted);
    assert_eq!(error.message, "could not allocate Jev batch cache index");
    let words = 3 * std::mem::size_of::<usize>();
    assert_eq!(response_charge(5, 7).unwrap(), 5 + words);
    for (length, reserved) in [(usize::MAX, 0), (5, usize::MAX - 4 - words)] {
        let error = response_charge(length, reserved).unwrap_err();
        assert_eq!(error.message, "Jev cached response size overflow");
    }
}

#[test]
fn errors_of_the_engine_keep_their_kind() {
    let error = refused(DataFusionError::ResourcesExhausted("full".into()));
    assert_eq!((error.kind, error.message.as_str()), (ErrorKind::ResourcesExhausted, "full"));
    assert_eq!(refused(DataFusionError::Internal("odd".into())).kind, ErrorKind::Engine);
}

#[test]
fn fingerprints_are_sha256() {
    let hex = |bytes: &[u8]| {
        let key = fingerprint(bytes.to_vec()).unwrap();
        key.iter().map(|byte| format!("{byte:02x}")).collect::<Vec<_>>().concat()
    };
    assert_eq!(hex(b""), "e3b0c44298fc1c149afbf4c8996fb92427ae41e4649b934ca495991b7852b855");
    assert_eq!(hex(b"abc"), "ba7816bf8f01cfea414140de5dae2223b00361a396177a9cb410ff61f20015ad");
}

#[test]
fn chunks_cover_a_batch_in_order() {
    let mut state = ChunkState::new(false, 4);
    assert_eq!(state.step(), ChunkStep::NextBatch);
    state.begin(10);
    assert_eq!(state.step(), ChunkStep::Slice { offset: 0, size: 4 });
    assert_eq!(state.step(), ChunkStep::Slice { offset: 4, size: 4 });
    assert_eq!(state.step(), ChunkStep::Slice { offset: 8, size: 2 });
    assert_eq!(state.step(), ChunkStep::NextBatch);
    state.begin(0);
    assert_eq!(state.step(), ChunkStep::NextBatch);
}

#[test]
fn demand_judges_one_row_at_a_time() {
    for mut state in [ChunkState::new(true, 8192), ChunkState::new(false, 0)] {
        state.begin(2);
        assert_eq!(state.step(), ChunkStep::Slice { offset: 0, size: 1 });
        assert_eq!(state.step(), ChunkStep::Slice { offset: 1, size: 1 });
        assert_eq!(state.step(), ChunkStep::NextBatch);
    }
}
