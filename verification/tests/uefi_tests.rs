use test_os::uefi::EfiMemoryType;
use test_os::uefi::EfiStatus;
use test_os::uefi::MemoryDescriptor;
use test_os::uefi::MemoryMapHolder;

#[test]
fn descriptors_report_their_fields() {
    let d = MemoryDescriptor::new(EfiMemoryType::CONVENTIONAL_MEMORY, 0x100000, 0, 16, 0xf);
    assert_eq!(d.memory_type(), EfiMemoryType::CONVENTIONAL_MEMORY);
    assert_eq!(d.physical_start(), 0x100000);
    assert_eq!(d.number_of_pages(), 16);
}

#[test]
fn memory_types_are_distinguished() {
    assert_ne!(EfiMemoryType::CONVENTIONAL_MEMORY, EfiMemoryType::RESERVED);
    assert_eq!(EfiStatus::Success, EfiStatus::Success);
}

#[test]
fn the_map_holds_descriptors_in_report_order() {
    let mut holder = MemoryMapHolder::new();
    assert_eq!(holder.len(), 0);
    holder.push(MemoryDescriptor::new(EfiMemoryType::RESERVED, 0, 0, 1, 0));
    holder.push(MemoryDescriptor::new(EfiMemoryType::LOADER_CODE, 0x1000, 0, 2, 0));
    assert_eq!(holder.len(), 2);
    assert_eq!(holder.get(0).memory_type(), EfiMemoryType::RESERVED);
    assert_eq!(holder.get(1).physical_start(), 0x1000);
}

#[test]
fn the_iterator_walks_the_whole_map_once() {
    let mut holder = MemoryMapHolder::new();
    holder.push(MemoryDescriptor::new(EfiMemoryType::CONVENTIONAL_MEMORY, 0x2000, 0, 3, 0));
    holder.push(MemoryDescriptor::new(EfiMemoryType::BOOT_SERVICES_DATA, 0x5000, 0, 1, 0));
    let mut it = holder.iter();
    let first = it.next().expect("two entries");
    assert_eq!(first.physical_start(), 0x2000);
    let second = it.next().expect("two entries");
    assert_eq!(second.number_of_pages(), 1);
    assert!(it.next().is_none());
}
