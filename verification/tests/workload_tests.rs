use runic::global_workload::{
    arc_clone_drop, hashmap_insert_remove, mixed_collections, string_building, vec_many_small,
    vec_push_clear,
};
use runic::workload::{
    aligned_to, boundary_sizes, realloc_growth, sweep_size, zeroed_alignment, realloc_sizes, size_classes, small_biased_random,     ScriptedRandom, SimulatedTarget, TraceEvent, TraceRandom, TracedTarget,
};
use std::collections::HashMap;

#[test]
fn vec_push_clear_sums_each_round() {
    assert_eq!(vec_push_clear(3, 100), 4950);
    assert_eq!(vec_push_clear(1, 4), 6);
    assert_eq!(vec_push_clear(2, 4), 0);
    assert_eq!(vec_push_clear(2, 5), 10 ^ 11);
    assert_eq!(vec_push_clear(0, 100), 0);
}

#[test]
fn vec_many_small_totals_lengths() {
    assert_eq!(vec_many_small(3, 300), 17502);
    assert_eq!(vec_many_small(2, 300), 0);
    assert_eq!(vec_many_small(1, 3), 6);
}

#[test]
fn string_building_counts_bytes() {
    assert_eq!(string_building(3, 50), 340);
    assert_eq!(string_building(1, 11), 11 * 5 + 10 + 2);
}

#[test]
fn hashmap_insert_remove_checksum() {
    assert_eq!(hashmap_insert_remove(3, 40), 20);
    assert_eq!(hashmap_insert_remove(1, 5), (0 ^ 2 ^ 4) ^ 2);
    assert_eq!(hashmap_insert_remove(1, 0), 0);
}

#[test]
fn arc_clone_drop_counts_clones() {
    assert_eq!(arc_clone_drop(3, 10), 11);
    assert_eq!(arc_clone_drop(2, 10), 0);
}

#[test]
fn mixed_collections_combines_workloads() {
    assert_eq!(mixed_collections(2, 64), 0);
    assert_eq!(
        mixed_collections(1, 8),
        vec_push_clear(1, 8) ^ vec_many_small(1, 2) ^ string_building(1, 4) ^ hashmap_insert_remove(1, 4) ^ 5
    );
}

#[test]
fn boundary_sizes_surround_each_class() {
    let sizes = boundary_sizes();
    assert_eq!(sizes.len(), 81);
    assert_eq!(&sizes[..6], &[7, 8, 9, 15, 16, 17]);
    assert_eq!(&sizes[78..], &[32767, 32768, 32769]);
    assert_eq!(size_classes().len(), 27);
}

#[test]
fn realloc_sizes_surround_each_power_of_two() {
    let sizes = realloc_sizes();
    assert_eq!(sizes.len(), 50);
    assert_eq!(&sizes[..6], &[1, 2, 1, 2, 3, 3]);
    assert_eq!(&sizes[47..], &[65535, 65536, 65537]);
}

fn live_after(events: &[TraceEvent]) -> Option<usize> {
    let mut live: HashMap<u64, (usize, usize, usize)> = HashMap::new();
    for event in events {
        match *event {
            TraceEvent::Allocated { id, size, align, address, .. } => {
                if live.insert(id, (address, size, align)).is_some() {
                    return None;
                }
            }
            TraceEvent::Resized { record, new_size, new_address } => {
                if live.get(&record.id) != Some(&(record.address, record.size, record.align)) {
                    return None;
                }
                live.insert(record.id, (new_address, new_size, record.align));
            }
            TraceEvent::Freed { record } => {
                if live.remove(&record.id) != Some((record.address, record.size, record.align)) {
                    return None;
                }
            }
        }
    }
    Some(live.len())
}

#[test]
fn realloc_growth_checksum_and_trace() {
    let mut target = TracedTarget::new(SimulatedTarget::new());
    assert_eq!(realloc_growth(&mut target, 1), 43689);
    assert_eq!(target.events().len(), 52);
    assert_eq!(live_after(target.events()), Some(0));
    let mut target = TracedTarget::new(SimulatedTarget::new());
    assert_eq!(realloc_growth(&mut target, 2), 0);
    assert_eq!(live_after(target.events()), Some(0));
}

#[test]
fn small_biased_random_trace_is_balanced() {
    let draws: Vec<usize> = (0..97).map(|i| (i * 7919 + 13) % 1000).collect();
    let mut target = TracedTarget::new(SimulatedTarget::new());
    let mut rng = ScriptedRandom::new(draws);
    let checksum = small_biased_random(&mut target, &mut rng, 200, 16);
    assert_eq!(live_after(target.events()), Some(0));
    let mut expected = 0usize;
    for event in target.events() {
        expected ^= match *event {
            TraceEvent::Allocated { address, .. } => address,
            TraceEvent::Resized { new_size, .. } => new_size,
            TraceEvent::Freed { record } => record.size,
        };
    }
    assert_eq!(checksum, expected);
    assert!(target.events().len() >= 200);
}

#[test]
fn small_biased_random_first_step_allocates() {
    let mut target = TracedTarget::new(SimulatedTarget::new());
    let mut rng = ScriptedRandom::new(vec![95, 99, 3, 1]);
    let checksum = small_biased_random(&mut target, &mut rng, 1, 4);
    let log = target.events();
    assert_eq!(log.len(), 2);
    match log[0] {
        TraceEvent::Allocated { id, size, align, zeroed, address } => {
            assert_eq!((id, size, align, zeroed, address), (0, 100, 8, false, 4096));
        }
        _ => panic!("first request must allocate"),
    }
    assert_eq!(checksum, 4096 ^ 100);
}

#[test]
fn scripted_random_stays_in_range() {
    let mut rng = ScriptedRandom::new(vec![12, 25, 1000]);
    assert_eq!(rng.next_usize(10), 2);
    assert_eq!(rng.biased_size(10), 6);
    assert_eq!(rng.alignment(), 1 << (1000 % 13));
    assert_eq!(rng.next_usize(5), 2);
}

#[test]
fn traced_target_logs_requests() {
    let mut target = TracedTarget::new(SimulatedTarget::new());
    let address = target.allocate(3, 64, 8, true);
    assert_eq!(address, 4096);
    assert_eq!(target.events().len(), 1);
    match target.events()[0] {
        TraceEvent::Allocated { id, zeroed, .. } => assert_eq!((id, zeroed), (3, true)),
        _ => panic!("allocation must be logged"),
    }
}

#[test]
fn arc_clone_drop_strong_count_is_clones_plus_one() {
    assert_eq!(arc_clone_drop(1, 3), 4);
    assert_eq!(arc_clone_drop(3, 0), 1);
    assert_eq!(arc_clone_drop(0, 5), 0);
    assert_eq!(mixed_collections(1, 4), 9);
}

#[test]
fn realloc_growth_requests_follow_the_sizes() {
    let mut target = TracedTarget::new(SimulatedTarget::new());
    realloc_growth(&mut target, 2);
    let sizes = realloc_sizes();
    let log = target.events();
    assert_eq!(log.len(), 2 * (sizes.len() + 2));
    for round in 0..2 {
        let block = &log[round * (sizes.len() + 2)..(round + 1) * (sizes.len() + 2)];
        let mut current = match block[0] {
            TraceEvent::Allocated { id, size, align, zeroed, address } => {
                assert_eq!((id, size, align, zeroed), (round as u64, 1, 8, false));
                (id, address, size, align)
            }
            _ => panic!("each round starts with an allocation"),
        };
        for (k, &size) in sizes.iter().enumerate() {
            match block[k + 1] {
                TraceEvent::Resized { record, new_size, new_address } => {
                    assert_eq!((record.id, record.address, record.size, record.align), current);
                    assert_eq!(new_size, size);
                    current = (record.id, new_address, new_size, record.align);
                }
                _ => panic!("each size is reached by a resize"),
            }
        }
        match block[sizes.len() + 1] {
            TraceEvent::Freed { record } => {
                assert_eq!((record.id, record.address, record.size, record.align), current);
            }
            _ => panic!("each round ends with a free"),
        }
    }
}

#[test]
fn small_biased_random_same_draws_same_requests() {
    let draws: Vec<usize> = (0..41).map(|i| (i * 104729 + 7) % 997).collect();
    let mut first = TracedTarget::new(SimulatedTarget::new());
    let mut rng = ScriptedRandom::new(draws.clone());
    let a = small_biased_random(&mut first, &mut rng, 120, 8);
    let mut second = TracedTarget::new(SimulatedTarget::new());
    let mut rng = ScriptedRandom::new(draws);
    let b = small_biased_random(&mut second, &mut rng, 120, 8);
    assert_eq!(a, b);
    assert_eq!(first.events(), second.events());
    let frees = first.events().len() - 120;
    assert!(first.events()[120..].iter().all(|e| matches!(e, TraceEvent::Freed { .. })));
    assert!(frees <= 8);
    for event in first.events() {
        match *event {
            TraceEvent::Allocated { size, align, .. } => {
                assert!((1..=32768).contains(&size));
                assert!(align.is_power_of_two() && align <= 4096);
            }
            TraceEvent::Resized { new_size, .. } => assert!((1..=32768).contains(&new_size)),
            TraceEvent::Freed { .. } => {}
        }
    }
}

#[test]
fn raw_workload_steps() {
    let sizes = boundary_sizes();
    assert_eq!(sweep_size(&sizes, 0), 7);
    assert_eq!(sweep_size(&sizes, sizes.len() + 1), 8);
    assert_eq!(zeroed_alignment(32 * 1024), 8);
    assert_eq!(zeroed_alignment(32 * 1024 + 1), 4096);
    assert!(aligned_to(8192, 4096));
    assert!(!aligned_to(8200, 4096));
}

#[test]
fn scripted_random_cycles_through_script() {
    let mut rng = ScriptedRandom::new(vec![3, 4]);
    assert_eq!(rng.next_usize(10), 3);
    assert_eq!(rng.next_usize(10), 4);
    assert_eq!(rng.next_usize(10), 3);
}
