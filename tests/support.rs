use rtty_receiver::device::{handle_send_result, DeviceError, WorkerPoisoned};
use rtty_receiver::memory_recycler::{ChunkLayout, MemoryChunkRecycler, RawMemoryChunk};

#[test]
fn send_results_that_are_passed_over() {
    handle_send_result(Ok(()));
    handle_send_result(Err(DeviceError::WorkerPoisoned));
    assert_eq!(DeviceError::BadState.message(), "The application is in a bad state.");
    assert_eq!(WorkerPoisoned.message(), "The receive thread has panicked.");
}

#[test]
fn recycler_hands_back_by_layout() {
    let small = ChunkLayout { size: 8, align: 8 };
    let big = ChunkLayout { size: 64, align: 16 };
    let mut r: MemoryChunkRecycler<u32> = MemoryChunkRecycler::new();
    assert_eq!(r.take(small), None);
    r.recycle(RawMemoryChunk { layout: small, data: 1 });
    r.recycle(RawMemoryChunk { layout: big, data: 2 });
    r.recycle(RawMemoryChunk { layout: small, data: 3 });
    r.cleanup();
    assert_eq!(r.take(small), Some(3));
    assert_eq!(r.take(big), Some(2));
    assert_eq!(r.take(big), None);
    assert_eq!(r.take(small), Some(1));
    assert_eq!(r.take(small), None);
}
