use std::mem::size_of;

use wgpu_memory::simple::{SimpleGpuMemory, Strategy};
use wgpu_memory::transfer::fits_in_buffer;

#[derive(Clone, Copy)]
pub struct Entity {
    pub param: u32,
}

fn entity_bytes(e: Entity) -> [u8; 4] {
    e.param.to_le_bytes()
}

#[test]
fn simple_gpu_memory_allocations_work() {
    let mut mem = SimpleGpuMemory::<Entity>::new();

    for _ in 0..100 {
        let index = mem.allocate(1);
        assert_eq!(mem.size(), size_of::<Entity>());

        mem.set(&index, 0, &entity_bytes(Entity { param: 1 }));
        mem.free(index);
    }

    assert_eq!(mem.size(), 0);
}

#[test]
fn simple_gpu_memory_resize_works() {
    let mut mem = SimpleGpuMemory::<Entity>::new();

    for _ in 0..100 {
        let mut index = mem.allocate(1);
        assert_eq!(mem.size(), size_of::<Entity>());

        mem.resize(&mut index, 10);
        assert_eq!(mem.size(), size_of::<Entity>() * 10);

        mem.resize(&mut index, 5);
        assert_eq!(mem.size(), size_of::<Entity>() * 5);

        mem.resize(&mut index, 5);
        assert_eq!(mem.size(), size_of::<Entity>() * 5);

        mem.set(&index, 0, &entity_bytes(Entity { param: 1 }));
        mem.free(index);
    }

    assert_eq!(mem.size(), 0);
}

#[test]
fn reuses_freed_slot_of_one_element() {
    let mut mem = SimpleGpuMemory::<u32>::new();
    assert_eq!(mem.size(), 0);

    let first = mem.allocate(1);
    assert_eq!(mem.size(), 4);
    let second = mem.allocate(1);
    assert_eq!(mem.size(), 8);

    mem.free(first);
    assert_eq!(mem.size(), 4);
    assert_eq!(mem.len_of(&second), 1);
    assert_eq!(mem.free_ranges().to_vec(), vec![(0, 4)]);
    assert_eq!(mem.data().len(), 8);

    let third = mem.allocate(1);
    assert_eq!(mem.range_of(&third), (0, 4));
    assert_eq!(mem.data().len(), 8);
    assert!(mem.free_ranges().is_empty());
    assert_eq!(mem.size(), 8);
}

#[test]
fn allocation_cuts_tail_of_last_fitting_range() {
    let mut mem = SimpleGpuMemory::<u8>::new();
    let a = mem.allocate(4);
    let b = mem.allocate(2);
    let c = mem.allocate(6);
    let _d = mem.allocate(1);
    mem.free(a);
    mem.free(c);
    assert_eq!(mem.free_ranges().to_vec(), vec![(0, 4), (6, 12)]);
    let e = mem.allocate(3);
    assert_eq!(mem.range_of(&e), (9, 12));
    assert_eq!(mem.free_ranges().to_vec(), vec![(0, 4), (6, 9)]);
    let f = mem.allocate(4);
    assert_eq!(mem.range_of(&f), (0, 4));
    assert_eq!(mem.free_ranges().to_vec(), vec![(6, 9)]);
    assert_eq!(mem.range_of(&b), (4, 6));
}

#[test]
fn free_merges_with_both_neighbours() {
    let mut mem = SimpleGpuMemory::<u8>::new();
    let a = mem.allocate(2);
    let b = mem.allocate(2);
    let c = mem.allocate(2);
    let _d = mem.allocate(2);
    mem.free(a);
    mem.free(c);
    assert_eq!(mem.free_ranges().to_vec(), vec![(0, 2), (4, 6)]);
    mem.free(b);
    assert_eq!(mem.free_ranges().to_vec(), vec![(0, 6)]);
}

#[test]
fn free_list_stays_sorted_and_apart() {
    let mut mem = SimpleGpuMemory::<u16>::new();
    let handles: Vec<_> = (0..10).map(|_| mem.allocate(1)).collect();
    for i in [7usize, 1, 5, 3, 9] {
        mem.free(handles[i]);
    }
    let ranges = mem.free_ranges().to_vec();
    assert_eq!(ranges, vec![(2, 4), (6, 8), (10, 12), (14, 16), (18, 20)]);
    for w in ranges.windows(2) {
        assert!(w[0].1 < w[1].0);
    }
}

#[test]
fn freeing_unknown_handle_changes_nothing() {
    let mut mem = SimpleGpuMemory::<u32>::new();
    let a = mem.allocate(2);
    mem.free(a);
    let before = mem.free_ranges().to_vec();
    mem.free(a);
    assert_eq!(mem.free_ranges().to_vec(), before);
    assert_eq!(mem.len(), 0);
    assert!(mem.is_empty());
}

#[test]
fn second_upload_is_skipped() {
    let mut mem = SimpleGpuMemory::<u32>::new();
    assert!(!mem.mutated());
    let a = mem.allocate(2);
    assert!(mem.mutated());
    assert!(mem.upload());
    assert!(!mem.mutated());
    assert!(!mem.upload());
    mem.set(&a, 0, &[1, 2, 3, 4]);
    assert!(mem.upload());
}

#[test]
fn upload_compacts_buffer() {
    let mut mem = SimpleGpuMemory::<u8>::new();
    let a = mem.allocate(3);
    let b = mem.allocate(2);
    mem.set(&b, 0, &[7, 8]);
    mem.free(a);
    assert!(mem.upload());
    assert_eq!(mem.data().to_vec(), vec![7, 8]);
    assert_eq!(mem.range_of(&b), (0, 2));
    assert!(mem.free_ranges().is_empty());
}

#[test]
fn freeing_keeps_other_contents() {
    let mut mem = SimpleGpuMemory::<u8>::new();
    let a = mem.allocate(3);
    let b = mem.allocate(3);
    let c = mem.allocate(3);
    mem.set(&a, 0, &[1, 2, 3]);
    mem.set(&b, 0, &[4, 5, 6]);
    mem.set(&c, 0, &[7, 8, 9]);
    mem.free(b);
    assert_eq!(mem.get(&a), vec![1, 2, 3]);
    assert_eq!(mem.get(&c), vec![7, 8, 9]);
}

#[test]
fn shrink_keeps_last_elements() {
    let mut mem = SimpleGpuMemory::<u32>::new();
    let mut h = mem.allocate(10);
    let mut bytes = Vec::new();
    for i in 0..10u32 {
        bytes.extend_from_slice(&(100 + i).to_le_bytes());
    }
    mem.set(&h, 0, &bytes);
    mem.resize(&mut h, 4);
    assert_eq!(mem.len_of(&h), 4);
    assert_eq!(mem.get(&h), bytes[24..40].to_vec());
    assert_eq!(mem.free_ranges().to_vec(), vec![(0, 24)]);
    assert_eq!(mem.size(), 16);
}

#[test]
fn growing_moves_block_without_contents() {
    let mut mem = SimpleGpuMemory::<u8>::new();
    let mut h = mem.allocate(2);
    mem.set(&h, 0, &[5, 6]);
    let old = h;
    mem.resize(&mut h, 4);
    assert!(h == old);
    assert_eq!(mem.len_of(&h), 4);
    assert_eq!(mem.range_of(&h), (2, 6));
    assert_eq!(mem.get(&h), vec![0, 0, 0, 0]);
    assert_eq!(mem.free_ranges().to_vec(), vec![(0, 2)]);
    assert_eq!(mem.len(), 4);
}

#[test]
fn growing_reuses_room_in_place() {
    let mut mem = SimpleGpuMemory::<u8>::new();
    let big = mem.allocate(6);
    let mut h = mem.allocate(2);
    let _tail = mem.allocate(1);
    mem.free(big);
    mem.resize(&mut h, 3);
    assert_eq!(mem.range_of(&h), (5, 8));
    assert_eq!(mem.free_ranges().to_vec(), vec![(0, 5)]);
    assert_eq!(mem.len(), 4);
    assert_eq!(mem.data().len(), 9);
}

#[test]
fn equal_resize_changes_nothing() {
    let mut mem = SimpleGpuMemory::<u32>::new();
    let mut h = mem.allocate(3);
    assert!(mem.upload());
    let before = h;
    mem.resize(&mut h, 3);
    assert!(h == before);
    assert!(!mem.mutated());
    assert_eq!(mem.size(), 12);
}

#[test]
fn truncate_after_many_operations_keeps_contents() {
    let mut mem = SimpleGpuMemory::<u16>::new();
    let mut live = Vec::new();
    let mut seed: u32 = 12345;
    for step in 0..100u32 {
        seed = seed.wrapping_mul(1103515245).wrapping_add(12345);
        let choice = (seed >> 16) % 3;
        if choice == 0 || live.is_empty() {
            let n = ((seed >> 8) % 5) as usize + 1;
            let h = mem.allocate(n);
            let bytes: Vec<u8> = (0..2 * n).map(|i| (step as u8).wrapping_add(i as u8)).collect();
            mem.set(&h, 0, &bytes);
            live.push(h);
        } else if choice == 1 {
            let i = (seed as usize >> 4) % live.len();
            mem.free(live.swap_remove(i));
        } else {
            let i = (seed as usize >> 4) % live.len();
            let n = ((seed >> 10) % 6) as usize + 1;
            let mut h = live[i];
            mem.resize(&mut h, n);
            let bytes: Vec<u8> = (0..2 * n).map(|j| (step as u8) ^ (j as u8)).collect();
            mem.set(&h, 0, &bytes);
            live[i] = h;
        }
    }
    let before: Vec<Vec<u8>> = live.iter().map(|h| mem.get(h)).collect();
    let live_bytes: usize = before.iter().map(|b| b.len()).sum();
    assert!(mem.optimize(Strategy::Truncate));
    assert_eq!(mem.size(), live_bytes);
    assert_eq!(mem.data().len(), live_bytes);
    assert!(mem.free_ranges().is_empty());
    for (h, b) in live.iter().zip(before.iter()) {
        assert_eq!(&mem.get(h), b);
    }
}

#[test]
fn sort_orders_blocks_by_length() {
    let mut mem = SimpleGpuMemory::<u8>::new();
    let a = mem.allocate(1);
    let b = mem.allocate(3);
    let c = mem.allocate(2);
    mem.set(&a, 0, &[1]);
    mem.set(&b, 0, &[2, 2, 2]);
    mem.set(&c, 0, &[3, 3]);
    assert!(mem.upload());
    assert!(!mem.optimize(Strategy::SortSizeDescending));
    assert!(mem.mutated());
    assert_eq!(mem.data().to_vec(), vec![2, 2, 2, 3, 3, 1]);
    assert_eq!(mem.get(&c), vec![3, 3]);
    assert!(!mem.optimize(Strategy::SortSizeAscending));
    assert_eq!(mem.data().to_vec(), vec![1, 3, 3, 2, 2, 2]);
    assert_eq!(mem.range_of(&b), (3, 6));
}

#[test]
fn strategy_names() {
    assert_eq!(Strategy::default().name(), "Truncate");
    assert_eq!(Strategy::SortSizeDescending.name(), "SortSizeDescending");
    assert_eq!(Strategy::SortSizeAscending.name(), "SortSizeAscending");
}

#[test]
fn zero_element_allocation() {
    let mut mem = SimpleGpuMemory::<u32>::new();
    let h = mem.allocate(0);
    assert_eq!(mem.len_of(&h), 0);
    assert_eq!(mem.size(), 0);
    mem.free(h);
    assert!(mem.free_ranges().is_empty());
}

#[test]
fn buffer_fit_decision() {
    assert!(fits_in_buffer(16, 16));
    assert!(fits_in_buffer(16, 0));
    assert!(!fits_in_buffer(16, 17));
    assert!(fits_in_buffer(u64::MAX, usize::MAX));
}

#[test]
fn liveness_and_slot_bound() {
    let mut mem = SimpleGpuMemory::<u32>::new();
    let a = mem.allocate(1);
    assert!(mem.contains(&a));
    let _b = mem.allocate(1);
    assert!(mem.slots_made_bound() >= 2);
    mem.free(a);
    assert!(!mem.contains(&a));
    let c = mem.allocate(1);
    assert!(mem.contains(&c));
    assert!(!mem.contains(&a));
    assert!(c != a);
}
