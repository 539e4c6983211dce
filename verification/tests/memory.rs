use kernel_common::memory::{memtranse, MemoryArea, PageMemoryManager, PAGE_SIZE};

fn manager_with_slots(slots: usize) -> PageMemoryManager {
    PageMemoryManager::new(vec![MemoryArea::new(); slots])
}

#[test]
fn page_size_is_four_kib() {
    assert_eq!(PAGE_SIZE, 4096);
}

#[test]
fn memtranse_rounds_length_up_to_whole_pages() {
    assert_eq!(memtranse(0x5000, 0).pages(), 0);
    assert_eq!(memtranse(0x5000, 1).pages(), 1);
    assert_eq!(memtranse(0x5000, 0xfff).pages(), 1);
    assert_eq!(memtranse(0x5000, 0x1000).pages(), 1);
    assert_eq!(memtranse(0x5000, 0x1001).pages(), 2);
    assert_eq!(memtranse(0x5000, 0x2800).pages(), 3);
}

#[test]
fn memtranse_keeps_the_address() {
    let page = memtranse(0x1234, 0x2000);
    assert_eq!(page.memory(), 0x1234);
    assert_eq!(page.pages(), 2);
    assert_eq!(page.size(), 0x2000);
}

#[test]
fn memtranse_takes_the_largest_length_that_rounds() {
    let page = memtranse(0, usize::MAX - 0xfff);
    assert_eq!(page.size(), usize::MAX - 0xfff);
    assert_eq!(page.pages(), (usize::MAX - 0xfff) / PAGE_SIZE);
}

#[test]
fn new_manager_has_nothing_free_and_nothing_lost() {
    let manager = manager_with_slots(8);
    assert_eq!(manager.get_freearea_bytes(), 0);
    assert_eq!(manager.get_lost_bytes(), 0);
}

#[test]
fn allocation_from_an_empty_manager_fails() {
    let mut manager = manager_with_slots(8);
    assert!(manager.allocate_frames(1).is_none());
    assert!(manager.allocate_frames(0).is_none());
    assert_eq!(manager.get_freearea_bytes(), 0);
}

#[test]
fn free_adds_the_bytes_of_the_handle() {
    let mut manager = manager_with_slots(8);
    manager.free_frames(memtranse(0x10000, 0x3000));
    assert_eq!(manager.get_freearea_bytes(), 0x3000);
    manager.free_frames(memtranse(0x20000, 0x1800));
    assert_eq!(manager.get_freearea_bytes(), 0x5000);
    assert_eq!(manager.get_lost_bytes(), 0);
}

#[test]
fn round_trip_restores_the_free_list() {
    let mut manager = manager_with_slots(8);
    manager.free_frames(memtranse(0x1000, 0x4000));
    manager.free_frames(memtranse(0x9000, 0x1000));
    let before = manager.get_freearea_bytes();
    let page = manager.allocate_frames(0x2000).unwrap();
    assert_eq!(page.memory(), 0x1000);
    assert_eq!(page.pages(), 2);
    assert_eq!(manager.get_freearea_bytes(), before - 0x2000);
    manager.free_frames(page);
    assert_eq!(manager.get_freearea_bytes(), before);
    assert_eq!(manager.get_lost_bytes(), 0);
    // the first region has its old bounds again: it can be taken whole
    let whole = manager.allocate_frames(0x4000).unwrap();
    assert_eq!(whole.memory(), 0x1000);
    assert_eq!(whole.pages(), 4);
    let rest = manager.allocate_frames(0x1000).unwrap();
    assert_eq!(rest.memory(), 0x9000);
    assert_eq!(manager.get_freearea_bytes(), 0);
}

#[test]
fn round_trip_of_a_whole_region_restores_the_free_list() {
    let mut manager = manager_with_slots(3);
    manager.free_frames(memtranse(0x4000, 0x2000));
    let page = manager.allocate_frames(0x2000).unwrap();
    assert_eq!(manager.get_freearea_bytes(), 0);
    manager.free_frames(page);
    assert_eq!(manager.get_freearea_bytes(), 0x2000);
    assert_eq!(manager.get_lost_bytes(), 0);
    assert_eq!(manager.allocate_frames(0x2000).unwrap().memory(), 0x4000);
}

#[test]
fn adjacent_regions_coalesce_low_first() {
    let mut manager = manager_with_slots(8);
    manager.free_frames(memtranse(0x1000, 0x1000));
    manager.free_frames(memtranse(0x2000, 0x1000));
    assert_eq!(manager.get_freearea_bytes(), 0x2000);
    // one entry spans both: a request for both pages is met at the lower address
    let page = manager.allocate_frames(0x2000).unwrap();
    assert_eq!(page.memory(), 0x1000);
    assert_eq!(page.pages(), 2);
    assert_eq!(manager.get_freearea_bytes(), 0);
}

#[test]
fn adjacent_regions_coalesce_high_first() {
    let mut manager = manager_with_slots(8);
    manager.free_frames(memtranse(0x2000, 0x1000));
    manager.free_frames(memtranse(0x1000, 0x1000));
    assert_eq!(manager.get_freearea_bytes(), 0x2000);
    let page = manager.allocate_frames(0x2000).unwrap();
    assert_eq!(page.memory(), 0x1000);
    assert_eq!(page.pages(), 2);
    assert_eq!(manager.get_freearea_bytes(), 0);
}

#[test]
fn coalescing_gives_the_record_back() {
    // room for two regions only
    let mut manager = manager_with_slots(4);
    manager.free_frames(memtranse(0x1000, 0x1000));
    manager.free_frames(memtranse(0x2000, 0x1000));
    // the two became one, so a second, distant region still finds a record
    manager.free_frames(memtranse(0x8000, 0x1000));
    assert_eq!(manager.get_freearea_bytes(), 0x3000);
    assert_eq!(manager.get_lost_bytes(), 0);
}

#[test]
fn region_between_two_others_joins_both() {
    let mut manager = manager_with_slots(8);
    manager.free_frames(memtranse(0x1000, 0x1000));
    manager.free_frames(memtranse(0x3000, 0x1000));
    assert!(manager.allocate_frames(0x2000).is_none());
    manager.free_frames(memtranse(0x2000, 0x1000));
    assert_eq!(manager.get_freearea_bytes(), 0x3000);
    let page = manager.allocate_frames(0x3000).unwrap();
    assert_eq!(page.memory(), 0x1000);
    assert_eq!(page.pages(), 3);
}

#[test]
fn region_between_two_others_is_lost_when_no_record_is_left() {
    // room for two regions: the record is asked for before anything is joined
    let mut manager = manager_with_slots(4);
    manager.free_frames(memtranse(0x1000, 0x1000));
    manager.free_frames(memtranse(0x3000, 0x1000));
    manager.free_frames(memtranse(0x2000, 0x1000));
    assert_eq!(manager.get_freearea_bytes(), 0x2000);
    assert_eq!(manager.get_lost_bytes(), 0x1000);
    assert!(manager.allocate_frames(0x2000).is_none());
}

#[test]
fn regions_with_a_gap_stay_separate() {
    let mut manager = manager_with_slots(8);
    manager.free_frames(memtranse(0x1000, 0x1000));
    manager.free_frames(memtranse(0x3000, 0x1000));
    assert_eq!(manager.get_freearea_bytes(), 0x2000);
    // no entry holds two pages
    assert!(manager.allocate_frames(0x2000).is_none());
    assert_eq!(manager.allocate_frames(0x1000).unwrap().memory(), 0x1000);
    assert_eq!(manager.allocate_frames(0x1000).unwrap().memory(), 0x3000);
    assert!(manager.allocate_frames(0x1000).is_none());
}

#[test]
fn first_fit_takes_the_first_region_that_is_large_enough() {
    let mut manager = manager_with_slots(8);
    manager.free_frames(memtranse(0x10000, 0x2000));
    manager.free_frames(memtranse(0x20000, 0x1000));
    manager.free_frames(memtranse(0x30000, 0x3000));
    let page = manager.allocate_frames(0x1000).unwrap();
    assert_eq!(page.memory(), 0x10000);
    assert_eq!(page.pages(), 1);
    // what is left of the first region starts one page further on
    assert_eq!(manager.allocate_frames(0x1000).unwrap().memory(), 0x11000);
    // now the exact-size region is the first that fits
    assert_eq!(manager.allocate_frames(0x1000).unwrap().memory(), 0x20000);
}

#[test]
fn first_fit_skips_regions_that_are_too_small() {
    let mut manager = manager_with_slots(8);
    manager.free_frames(memtranse(0x10000, 0x2000));
    manager.free_frames(memtranse(0x20000, 0x1000));
    manager.free_frames(memtranse(0x30000, 0x3000));
    let page = manager.allocate_frames(0x2001).unwrap();
    assert_eq!(page.memory(), 0x30000);
    assert_eq!(page.pages(), 3);
    assert_eq!(manager.get_freearea_bytes(), 0x3000);
}

#[test]
fn first_fit_goes_by_address_not_by_order_of_return() {
    let mut manager = manager_with_slots(8);
    manager.free_frames(memtranse(0x30000, 0x1000));
    manager.free_frames(memtranse(0x10000, 0x1000));
    manager.free_frames(memtranse(0x20000, 0x1000));
    assert_eq!(manager.allocate_frames(0x1000).unwrap().memory(), 0x10000);
    assert_eq!(manager.allocate_frames(0x1000).unwrap().memory(), 0x20000);
    assert_eq!(manager.allocate_frames(0x1000).unwrap().memory(), 0x30000);
}

#[test]
fn one_byte_costs_one_page() {
    let mut manager = manager_with_slots(8);
    manager.free_frames(memtranse(0x1000, 0x4000));
    let page = manager.allocate_frames(1).unwrap();
    assert_eq!(page.pages(), 1);
    assert_eq!(page.size(), 0x1000);
    assert_eq!(manager.get_freearea_bytes(), 0x3000);
}

#[test]
fn request_is_rounded_up_to_whole_pages() {
    let mut manager = manager_with_slots(8);
    manager.free_frames(memtranse(0x1000, 0x8000));
    assert_eq!(manager.allocate_frames(0x1000).unwrap().pages(), 1);
    assert_eq!(manager.allocate_frames(0x1001).unwrap().pages(), 2);
    assert_eq!(manager.allocate_frames(0x2fff).unwrap().pages(), 3);
    assert_eq!(manager.get_freearea_bytes(), 0x2000);
}

#[test]
fn failed_allocation_changes_nothing() {
    let mut manager = manager_with_slots(8);
    manager.free_frames(memtranse(0x1000, 0x2000));
    assert!(manager.allocate_frames(0x2001).is_none());
    assert_eq!(manager.get_freearea_bytes(), 0x2000);
    assert_eq!(manager.allocate_frames(0x2000).unwrap().memory(), 0x1000);
}

#[test]
fn request_too_large_to_round_fails() {
    let mut manager = manager_with_slots(8);
    manager.free_frames(memtranse(0x1000, 0x2000));
    assert!(manager.allocate_frames(usize::MAX).is_none());
    assert!(manager.allocate_frames(usize::MAX - 0xffe).is_none());
    assert!(manager.allocate_frames(usize::MAX - 0xfff).is_none());
    assert_eq!(manager.get_freearea_bytes(), 0x2000);
}

#[test]
fn request_for_no_bytes_takes_nothing() {
    let mut manager = manager_with_slots(8);
    manager.free_frames(memtranse(0x7000, 0x2000));
    let page = manager.allocate_frames(0).unwrap();
    assert_eq!(page.memory(), 0x7000);
    assert_eq!(page.pages(), 0);
    assert_eq!(manager.get_freearea_bytes(), 0x2000);
    manager.free_frames(page);
    assert_eq!(manager.get_freearea_bytes(), 0x2000);
    assert_eq!(manager.allocate_frames(0x2000).unwrap().memory(), 0x7000);
}

#[test]
fn handle_of_no_pages_changes_nothing() {
    let mut manager = manager_with_slots(3);
    manager.free_frames(memtranse(0x5000, 0));
    assert_eq!(manager.get_freearea_bytes(), 0);
    assert_eq!(manager.get_lost_bytes(), 0);
    // the one record is still to be had
    manager.free_frames(memtranse(0x5000, 0x1000));
    assert_eq!(manager.get_freearea_bytes(), 0x1000);
    assert_eq!(manager.get_lost_bytes(), 0);
}

#[test]
fn exhausted_arena_loses_the_region() {
    // four records: room for two regions
    let mut manager = manager_with_slots(4);
    manager.free_frames(memtranse(0x1000, 0x1000));
    manager.free_frames(memtranse(0x3000, 0x2000));
    assert_eq!(manager.get_freearea_bytes(), 0x3000);
    assert_eq!(manager.get_lost_bytes(), 0);
    manager.free_frames(memtranse(0x8000, 0x3000));
    assert_eq!(manager.get_freearea_bytes(), 0x3000);
    assert_eq!(manager.get_lost_bytes(), 0x3000);
    // the lost pages cannot be had again
    assert!(manager.allocate_frames(0x3000).is_none());
}

#[test]
fn lost_bytes_add_up() {
    let mut manager = manager_with_slots(3);
    manager.free_frames(memtranse(0x1000, 0x1000));
    manager.free_frames(memtranse(0x3000, 0x1000));
    manager.free_frames(memtranse(0x5000, 0x2000));
    assert_eq!(manager.get_freearea_bytes(), 0x1000);
    assert_eq!(manager.get_lost_bytes(), 0x3000);
}

#[test]
fn two_records_leave_room_for_no_region() {
    let mut manager = manager_with_slots(2);
    manager.free_frames(memtranse(0x1000, 0x1000));
    assert_eq!(manager.get_freearea_bytes(), 0);
    assert_eq!(manager.get_lost_bytes(), 0x1000);
    assert!(manager.allocate_frames(0x1000).is_none());
}

#[test]
fn region_taken_whole_gives_its_record_back() {
    // three records: room for one region
    let mut manager = manager_with_slots(3);
    manager.free_frames(memtranse(0x1000, 0x2000));
    assert_eq!(manager.allocate_frames(0x2000).unwrap().memory(), 0x1000);
    manager.free_frames(memtranse(0x9000, 0x1000));
    assert_eq!(manager.get_freearea_bytes(), 0x1000);
    assert_eq!(manager.get_lost_bytes(), 0);
}

#[test]
fn pages_split_from_a_region_are_lost_when_no_record_is_left() {
    // three records: room for one region
    let mut manager = manager_with_slots(3);
    manager.free_frames(memtranse(0x1000, 0x2000));
    let page = manager.allocate_frames(0x1000).unwrap();
    assert_eq!(manager.get_freearea_bytes(), 0x1000);
    manager.free_frames(page);
    assert_eq!(manager.get_freearea_bytes(), 0x1000);
    assert_eq!(manager.get_lost_bytes(), 0x1000);
}

#[test]
fn bias_gives_address_zero_back() {
    let mut manager = manager_with_slots(8);
    manager.set_addr_bias(0x1000);
    manager.free_frames(memtranse(0, 0x1000));
    assert_eq!(manager.get_freearea_bytes(), 0x1000);
    let page = manager.allocate_frames(0x1000).unwrap();
    assert_eq!(page.memory(), 0);
    assert_eq!(page.pages(), 1);
}

#[test]
fn bias_is_taken_off_every_handle() {
    let mut manager = manager_with_slots(8);
    manager.set_addr_bias(0x8000_0000);
    manager.free_frames(memtranse(0, 0x2000));
    manager.free_frames(memtranse(0x5000, 0x1000));
    assert_eq!(manager.allocate_frames(0x1000).unwrap().memory(), 0);
    assert_eq!(manager.allocate_frames(0x1000).unwrap().memory(), 0x1000);
    assert_eq!(manager.allocate_frames(0x1000).unwrap().memory(), 0x5000);
}

#[test]
fn address_zero_needs_no_bias() {
    let mut manager = manager_with_slots(8);
    manager.free_frames(memtranse(0, 0x2000));
    assert_eq!(manager.get_freearea_bytes(), 0x2000);
    manager.free_frames(memtranse(0x2000, 0x1000));
    let page = manager.allocate_frames(0x3000).unwrap();
    assert_eq!(page.memory(), 0);
    assert_eq!(page.pages(), 3);
    assert_eq!(manager.get_lost_bytes(), 0);
}

#[test]
fn region_may_end_at_the_highest_address() {
    let mut manager = manager_with_slots(8);
    let top = usize::MAX - 0x1000;
    manager.free_frames(memtranse(top - 0x2000, 0x1000));
    manager.free_frames(memtranse(top, 0xfff));
    assert_eq!(manager.get_freearea_bytes(), 0x2000);
    manager.free_frames(memtranse(top - 0x1000, 0x1000));
    let page = manager.allocate_frames(0x3000).unwrap();
    assert_eq!(page.memory(), top - 0x2000);
    assert_eq!(page.pages(), 3);
}

#[test]
fn init_instance_seats_a_manager_on_a_new_arena() {
    let manager = manager_with_slots(2);
    let mut manager = manager.init_instance(vec![MemoryArea::new(); 5]);
    manager.free_frames(memtranse(0x1000, 0x1000));
    manager.free_frames(memtranse(0x3000, 0x1000));
    manager.free_frames(memtranse(0x5000, 0x1000));
    assert_eq!(manager.get_freearea_bytes(), 0x3000);
    manager.free_frames(memtranse(0x7000, 0x1000));
    assert_eq!(manager.get_freearea_bytes(), 0x3000);
    assert_eq!(manager.get_lost_bytes(), 0x1000);
}

#[test]
fn long_run_of_frees_and_allocations_keeps_the_count() {
    let mut manager = manager_with_slots(34);
    // every other page of 64
    for i in 0..32usize {
        manager.free_frames(memtranse(0x100000 + 2 * i * PAGE_SIZE, PAGE_SIZE));
    }
    assert_eq!(manager.get_freearea_bytes(), 32 * PAGE_SIZE);
    assert_eq!(manager.get_lost_bytes(), 0);
    assert!(manager.allocate_frames(2 * PAGE_SIZE).is_none());
    // the pages between them, from the top down: all 64 become one region
    for i in (0..32usize).rev() {
        let page = manager.allocate_frames(PAGE_SIZE).unwrap();
        assert_eq!(page.memory(), 0x100000 + 2 * (31 - i) * PAGE_SIZE);
    }
    assert_eq!(manager.get_freearea_bytes(), 0);
    for i in 0..64usize {
        manager.free_frames(memtranse(0x100000 + (63 - i) * PAGE_SIZE, PAGE_SIZE));
    }
    assert_eq!(manager.get_freearea_bytes(), 64 * PAGE_SIZE);
    assert_eq!(manager.get_lost_bytes(), 0);
    let page = manager.allocate_frames(64 * PAGE_SIZE).unwrap();
    assert_eq!(page.memory(), 0x100000);
    assert_eq!(page.pages(), 64);
}
