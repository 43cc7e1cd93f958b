use foyer_block::bits::{align_up, PAGE};

#[test]
fn rounds_up_to_pages() {
    assert_eq!(PAGE, 4096);
    assert_eq!(align_up(PAGE, 0), 0);
    assert_eq!(align_up(PAGE, 1), 4096);
    assert_eq!(align_up(PAGE, 4095), 4096);
    assert_eq!(align_up(PAGE, 4096), 4096);
    assert_eq!(align_up(PAGE, 4097), 8192);
    assert_eq!(align_up(8, 13), 16);
}
