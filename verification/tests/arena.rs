use ppocr::arena::{bucket_ceiling, for_overwrite, zeroed, InferenceArena};

type Arena = InferenceArena<Vec<f32>>;

fn taken(arena: &mut Arena, len: usize) -> Vec<f32> {
    match arena.take(len) {
        Some(buffer) => buffer,
        None => Vec::with_capacity(bucket_ceiling(len)),
    }
}

fn zeroed_buffer(arena: &mut Arena, len: usize) -> Vec<f32> {
    let buffer = taken(arena, len);
    zeroed(buffer, len, 0.0)
}

fn release(arena: &mut Arena, buffer: Vec<f32>) -> bool {
    let capacity = buffer.capacity();
    arena.recycle(capacity, buffer)
}

#[test]
fn reuses_only_released_buffers() {
    let mut arena = Arena::with_limits(64 * 1024, 64 * 1024, 4);
    let first = zeroed_buffer(&mut arena, 1024);
    let first_address = first.as_ptr();
    let second = zeroed_buffer(&mut arena, 1024);
    let second_address = second.as_ptr();
    assert_ne!(first_address, second.as_ptr());
    release(&mut arena, second);
    let reused = zeroed_buffer(&mut arena, 1024);
    assert_eq!(reused.as_ptr(), second_address);
}

#[test]
fn overwrite_skips_clear_but_zeroed_resets_recycled_values() {
    let mut arena = Arena::with_limits(64 * 1024, 64 * 1024, 4);
    let mut first = zeroed_buffer(&mut arena, 1024);
    first.fill(7.0);
    let address = first.as_ptr();
    release(&mut arena, first);

    let buffer = taken(&mut arena, 1024);
    let overwrite = for_overwrite(buffer, 1024, 0.0);
    assert_eq!(overwrite.as_ptr(), address);
    assert!(overwrite.iter().all(|&value| value == 7.0));
    release(&mut arena, overwrite);

    let zeroed = zeroed_buffer(&mut arena, 1024);
    assert_eq!(zeroed.as_ptr(), address);
    assert!(zeroed.iter().all(|&value| value == 0.0));
}

#[test]
fn enforces_buffer_and_total_limits() {
    let mut arena = Arena::with_limits(2048, 2048, 2);
    let first = zeroed_buffer(&mut arena, 256);
    let second = zeroed_buffer(&mut arena, 256);
    release(&mut arena, first);
    release(&mut arena, second);
    let third = zeroed_buffer(&mut arena, 512);
    release(&mut arena, third);
    let fourth = zeroed_buffer(&mut arena, 1024);
    release(&mut arena, fourth);
    assert_eq!(arena.cached_buffers(), 2);
    assert_eq!(arena.cached_bytes(), 2048);
}

#[test]
fn overwriting_keeps_what_is_there() {
    assert_eq!(for_overwrite(vec![1, 2, 3], 2, 0), [1, 2]);
    assert_eq!(for_overwrite(vec![1, 2], 4, 9), [1, 2, 9, 9]);
}

#[test]
fn buffers_over_a_limit_are_not_kept() {
    let mut arena: InferenceArena<u8> = InferenceArena::with_limits(64, 32, 2);
    assert!(!arena.recycle(9, 0));
    assert!(arena.recycle(8, 1));
    assert!(arena.recycle(8, 2));
    assert!(!arena.recycle(8, 3));
    assert_eq!(arena.cached_bytes(), 64);
    assert!(!arena.recycle(1, 4));
    assert_eq!(arena.take(8), Some(2));
    assert_eq!(arena.cached_bytes(), 32);
    assert!(arena.recycle(4, 5));
    assert_eq!(arena.cached_bytes(), 48);
    assert!(!arena.recycle(0, 6));
    assert!(!arena.recycle(usize::MAX, 7));
}

#[test]
fn the_smallest_buffer_that_serves_is_handed_out() {
    let mut arena: InferenceArena<u8> = InferenceArena::default();
    assert!(arena.recycle(32, 1));
    assert!(arena.recycle(17, 2));
    assert!(arena.recycle(20, 3));
    assert_eq!(arena.take(0), None);
    assert_eq!(arena.take(18), Some(3));
    assert_eq!(arena.take(18), Some(1));
    assert_eq!(arena.take(18), None);
    assert_eq!(arena.take(8), None);
    assert_eq!(arena.take(17), Some(2));
    assert_eq!(arena.cached_bytes(), 0);
}

#[test]
fn requests_are_rounded_up_to_a_power_of_two() {
    for requested in [1, 2, 3, 5, 64, 65, 1_000] {
        assert_eq!(bucket_ceiling(requested), requested.next_power_of_two());
    }
    assert_eq!(bucket_ceiling(usize::MAX), usize::MAX);
}
