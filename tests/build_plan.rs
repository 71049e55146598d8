use tg_kernel::cases::{Arch, Cases};
use tg_kernel::portal::MultislotPortal;

#[test]
fn cases_with_base_and_step() {
    let c = Cases {
        base: Some(0x8040_0000),
        step: Some(0x2_0000),
        cases: Some(vec!["a".to_string(), "b".to_string(), "c".to_string()]),
    };
    let info = c.build();
    assert_eq!((info.base, info.step), (0x8040_0000, 0x2_0000));
    let addrs: Vec<u64> = info.bins.iter().map(|b| b.base_address).collect();
    assert_eq!(addrs, vec![0x8040_0000, 0x8042_0000, 0x8044_0000]);
    assert_eq!(info.bins[2].name, "c");
}

#[test]
fn cases_step_needs_base() {
    let c = Cases { base: None, step: Some(0x1000), cases: Some(vec!["x".to_string(), "y".to_string()]) };
    let info = c.build();
    assert_eq!((info.base, info.step), (0, 0));
    assert!(info.bins.iter().all(|b| b.base_address == 0));
}

#[test]
fn cases_without_names() {
    let c = Cases { base: Some(5), step: Some(1), cases: None };
    let info = c.build();
    assert_eq!((info.base, info.step, info.bins.len()), (0, 0, 0));
}

#[test]
fn arch_directives() {
    assert_eq!(Arch::Riscv32.data_directive(), ".word");
    assert_eq!(Arch::Riscv64.data_directive(), ".quad");
    assert_eq!((Arch::Riscv32.align(), Arch::Riscv64.align()), (2, 3));
}

#[test]
fn portal_layout() {
    let word = std::mem::size_of::<usize>();
    assert_eq!(MultislotPortal::calculate_size(3, 64), 2 * word + 64 + 3 * 5 * word);
    let p = MultislotPortal::init_transit(3, 64);
    assert_eq!(p.text_offset(), 2 * word);
    assert_eq!(p.cache_offset(1), 2 * word + 64 + 5 * word);
    assert_eq!(p.total_size(), MultislotPortal::calculate_size(3, 64));
}
