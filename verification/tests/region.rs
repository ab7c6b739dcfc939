use ascii_kernel::error::KernelError;
use ascii_kernel::region::{span_end, BRIGHTNESS_CAPACITY, BYTE_CAPACITY};

#[test]
fn capacities_are_four_mebibytes_and_one_mebi_slots() {
    assert_eq!(BYTE_CAPACITY, 4 * 1024 * 1024);
    assert_eq!(BRIGHTNESS_CAPACITY, 1024 * 1024);
    assert!(span_end(0, BRIGHTNESS_CAPACITY, 4, BYTE_CAPACITY).is_ok());
}

#[test]
fn span_end_is_offset_plus_count_times_stride() {
    assert_eq!(span_end(5, 7, 3, 100), Ok(26));
    assert_eq!(span_end(0, 0, 4, 0), Ok(0));
    assert_eq!(span_end(12, 0, 3, 12), Ok(12));
}

#[test]
fn span_end_accepts_a_region_that_ends_with_the_buffer() {
    assert_eq!(span_end(4, 32, 3, 100), Ok(100));
    assert_eq!(span_end(5, 32, 3, 100), Err(KernelError::OutOfBounds));
    assert_eq!(span_end(4, 33, 3, 100), Err(KernelError::OutOfBounds));
}

#[test]
fn span_end_rejects_an_offset_behind_the_buffer() {
    assert_eq!(span_end(13, 0, 3, 12), Err(KernelError::OutOfBounds));
    assert_eq!(span_end(101, 1, 0, 100), Err(KernelError::OutOfBounds));
}

#[test]
fn span_end_with_stride_zero_is_the_offset() {
    assert_eq!(span_end(9, usize::MAX, 0, 10), Ok(9));
}

#[test]
fn span_end_rejects_what_does_not_fit_in_a_machine_word() {
    assert_eq!(span_end(0, usize::MAX, 4, usize::MAX), Err(KernelError::OutOfBounds));
    assert_eq!(span_end(1, usize::MAX, 1, usize::MAX), Err(KernelError::OutOfBounds));
    assert_eq!(span_end(0, usize::MAX, 1, usize::MAX), Ok(usize::MAX));
    assert_eq!(span_end(usize::MAX, usize::MAX, usize::MAX, usize::MAX - 1), Err(KernelError::OutOfBounds));
}
