use nucleon::metal::{dim_u32, reduction_dim_u32, REDUCTION_THREADS};

#[test]
fn dimensions_pass_to_the_kernel_unchanged() {
    assert_eq!(dim_u32(0), 0);
    assert_eq!(dim_u32(4096), 4096);
    assert_eq!(dim_u32(u32::MAX as usize), u32::MAX);
}

#[test]
fn reduction_dimensions_leave_room_for_one_stride() {
    assert_eq!(REDUCTION_THREADS, 256);
    assert_eq!(reduction_dim_u32(1024), 1024);
    let top = u32::MAX as usize - REDUCTION_THREADS;
    assert_eq!(reduction_dim_u32(top), top as u32);
}
