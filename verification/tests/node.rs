use offsetting::matryoshka::node::{get_i32_size, get_u32_size};

#[test]
fn node_test() {
    assert_eq!(get_u32_size(0), 1);
    assert_eq!(get_u32_size(10), 1);
    assert_eq!(get_u32_size(u8::MAX as u32), 1);
    assert_eq!(get_u32_size(u8::MAX as u32 + 1), 2);
    assert_eq!(get_u32_size(u16::MAX as u32), 2);
    assert_eq!(get_u32_size(u16::MAX as u32 + 1), 3);

    assert_eq!(get_i32_size(291), 2);
}
