//! The launch values the privilege transition programs.

use ceno_boot::launch::prepare_launch;
use ceno_boot::page_round_up;

#[test]
fn satp_holds_mode_and_root_page_number() {
    let p = prepare_launch(0x10_0000, 0x2000);
    assert_eq!(p.satp, 0x8000_0000 | 0x100);
    assert_eq!(p.entry, 0x2000);
    assert_eq!(p.stack_pointer, 0x8000_0000);
    assert!(p.user_mode);
}

#[test]
fn round_up_to_page() {
    assert_eq!(page_round_up(0), 0);
    assert_eq!(page_round_up(1), 4096);
    assert_eq!(page_round_up(4096), 4096);
    assert_eq!(page_round_up(4097), 8192);
}
