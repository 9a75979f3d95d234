use muted::Data;
use muted::Muted;
use muted::MutedError;

fn three_part_container() -> Muted<i32> {
    let mut m = Muted::new(vec![1, 2, 3, 4, 5]);
    m.push_vec_convert(vec![1, 2, 3, 4, 5]);
    let converted = Muted::muted_from(vec![1, 2, 3, 4, 5]);
    assert_eq!(m.push_vec(converted), Ok(()));
    m
}

#[test]
fn scenario_construct_and_append() {
    let m = three_part_container();
    let expected = [1, 2, 3, 4, 5, 1, 2, 3, 4, 5, 1, 2, 3, 4, 5];
    for (i, e) in expected.iter().enumerate() {
        assert_eq!(m.read(i), Some(e));
    }
    assert_eq!(m.len(), 15);
    assert_eq!(m.read(15), None);
}

#[test]
fn scenario_write_round_trip() {
    let mut m = three_part_container();
    assert_eq!(m.write(0, 67), Some(()));
    assert_eq!(m.read(0), Some(&67));
    let expected = [67, 2, 3, 4, 5, 1, 2, 3, 4, 5, 1, 2, 3, 4, 5];
    for (i, e) in expected.iter().enumerate() {
        assert_eq!(m.read(i), Some(e));
    }
}

#[test]
fn scenario_remove_second_segment() {
    let mut m = three_part_container();
    assert_eq!(m.write(0, 67), Some(()));
    assert_eq!(m.drop_vec(Some(5), None), Ok(()));
    for i in 5..10 {
        assert_eq!(m.read(i), None);
        assert_eq!(m.write(i, 0), None);
    }
    assert_eq!(m.len(), 15);
    assert_eq!(m.read(10), Some(&1));
    assert_eq!(m.read(14), Some(&5));
}

#[test]
fn scenario_replace_keeps_dead_space() {
    let mut m = three_part_container();
    assert_eq!(m.write(0, 67), Some(()));
    assert_eq!(m.drop_vec(Some(5), None), Ok(()));
    let len_before_replace = m.len();
    assert_eq!(m.insert_vec(5, vec![420, 67]), Ok(()));
    assert_eq!(m.len(), len_before_replace + 2);
    assert_eq!(m.len(), 17);
    assert_eq!(m.flatten(), vec![67, 2, 3, 4, 5, 420, 67, 1, 2, 3, 4, 5]);
    assert_eq!(m.read(5), Some(&420));
    assert_eq!(m.read(6), Some(&67));
}

#[test]
fn scenario_replace_after_raw_edit() {
    // The same chain with one extra in-place edit at logical index 1 before
    // the removal.
    let mut m = three_part_container();
    assert_eq!(m.write(0, 67), Some(()));
    assert_eq!(m.write(1, 10), Some(()));
    assert_eq!(m.drop_vec(Some(5), None), Ok(()));
    assert_eq!(m.insert_vec(5, vec![420, 67]), Ok(()));
    assert_eq!(m.flatten(), vec![67, 10, 3, 4, 5, 420, 67, 1, 2, 3, 4, 5]);
}

#[test]
fn length_tracks_every_operation() {
    let mut m: Muted<i32> = Muted::new(vec![]);
    assert!(m.is_empty());
    assert_eq!(m.len(), 0);
    m.push_vec_convert(vec![7, 8]);
    assert!(!m.is_empty());
    assert_eq!(m.len(), 2);
    m.push_vec_convert(vec![]);
    assert_eq!(m.len(), 2);
    m.push_vec_convert(vec![9]);
    assert_eq!(m.len(), 3);
    assert_eq!(m.drop_vec(Some(0), None), Ok(()));
    assert_eq!(m.len(), 3);
    assert_eq!(m.insert_vec(0, vec![1, 2, 3]), Ok(()));
    assert_eq!(m.len(), 6);
}

#[test]
fn append_adds_one_slot_regardless_of_length() {
    let mut m = Muted::new(vec![0]);
    assert_eq!(m.slot_count(), 1);
    m.push_vec_convert(vec![1]);
    assert_eq!(m.slot_count(), 2);
    m.push_vec_convert((0..1000).collect());
    assert_eq!(m.slot_count(), 3);
    assert_eq!(m.len(), 1002);
    // Both appended segments have one ownership record each.
    assert_eq!(m.lookup(0), Some((1, 1)));
    assert_eq!(m.lookup(1), Some((2, 1000)));
    assert_eq!(m.lookup(2), None);
}

#[test]
fn zero_width_slot_is_skipped_by_lookup() {
    let mut m = Muted::new(vec![1]);
    m.push_vec_convert(vec![]);
    m.push_vec_convert(vec![9]);
    assert_eq!(m.read(0), Some(&1));
    assert_eq!(m.read(1), Some(&9));
    assert_eq!(m.read(2), None);
}

#[test]
fn removal_is_atomic_for_table_and_slot() {
    let mut m = Muted::new(vec![1, 2]);
    m.push_vec_convert(vec![10, 20, 30]);
    assert_eq!(m.lookup(0), Some((2, 3)));
    assert_eq!(m.drop_vec(None, Some(0)), Ok(()));
    assert_eq!(m.lookup(0), None);
    for i in 2..5 {
        assert_eq!(m.read(i), None);
        assert_eq!(m.write(i, 0), None);
    }
    // A second removal of the same identity finds nothing.
    assert_eq!(m.drop_vec(None, Some(0)), Err(MutedError::NotFound));
    assert_eq!(m.drop_vec(Some(2), None), Err(MutedError::SlotState));
}

#[test]
fn nested_segment_references_are_rejected() {
    let mut m = Muted::new(vec![1, 2]);
    let nested: Vec<Data<i32>> = vec![Data::Val(3), Data::Rp(None)];
    assert_eq!(m.push_vec(nested), Err(MutedError::NestedRef));
    // Nothing was spliced.
    assert_eq!(m.len(), 2);
    assert_eq!(m.slot_count(), 2);
    assert_eq!(m.lookup(0), None);
}

#[test]
fn selector_errors() {
    let mut m = Muted::new(vec![1, 2, 3]);
    m.push_vec_convert(vec![4, 5]);
    // Exactly one selector must be supplied.
    assert_eq!(m.drop_vec(None, None), Err(MutedError::NotFound));
    assert_eq!(m.drop_vec(Some(3), Some(0)), Err(MutedError::NotFound));
    // A slot index past the slot array.
    assert_eq!(m.drop_vec(Some(9), None), Err(MutedError::OutOfBounds));
    // A value slot is not a removable segment.
    assert_eq!(m.drop_vec(Some(0), None), Err(MutedError::SlotState));
    // An unknown identity.
    assert_eq!(m.drop_vec(None, Some(7)), Err(MutedError::NotFound));
}

#[test]
fn replace_errors() {
    let mut m = Muted::new(vec![1, 2, 3]);
    m.push_vec_convert(vec![4, 5]);
    assert_eq!(m.insert_vec(9, vec![0]), Err(MutedError::OutOfBounds));
    assert_eq!(m.insert_vec(0, vec![0]), Err(MutedError::SlotState));
    assert_eq!(m.insert_vec(3, vec![0]), Err(MutedError::SlotState));
    assert_eq!(m.drop_vec(Some(3), None), Ok(()));
    assert_eq!(m.insert_vec(3, vec![8, 9]), Ok(()));
    assert_eq!(m.read(3), Some(&8));
    assert_eq!(m.read(4), Some(&9));
}

#[test]
fn unchecked_replace_skips_index_adjustment() {
    let mut m = Muted::new(vec![1, 2, 3]);
    m.push_vec_convert(vec![4, 5]);
    assert_eq!(m.len(), 5);
    assert_eq!(m.drop_vec(Some(3), None), Ok(()));
    assert_eq!(m.insert_vec_unchecked(3, vec![8, 9]), Ok(()));
    // The prefix table was not recalibrated: the total stays as it was.
    assert_eq!(m.len(), 5);
    assert_eq!(m.read(3), Some(&8));
    assert_eq!(m.read(4), Some(&9));
    assert_eq!(m.flatten(), vec![1, 2, 3, 8, 9]);
}

#[test]
fn read_and_write_across_slot_kinds() {
    let mut m = Muted::new(vec![1, 2]);
    m.push_vec_convert(vec![10, 20]);
    // A value slot.
    assert_eq!(m.write(1, -7), Some(()));
    assert_eq!(m.read(1), Some(&-7));
    // Inside a spliced segment.
    assert_eq!(m.write(3, -9), Some(()));
    assert_eq!(m.read(3), Some(&-9));
    // Out of bounds fails rather than panicking.
    assert_eq!(m.read(4), None);
    assert_eq!(m.write(4, 0), None);
}

#[test]
fn works_with_structured_elements() {
    #[derive(Debug, PartialEq, Eq, Clone, Copy)]
    struct Part {
        a: u32,
        b: i32,
    }
    let mut m = Muted::new(vec![Part { a: 1, b: -1 }, Part { a: 100, b: -500 }]);
    assert_eq!(m.read(1).map(|p| p.b), Some(-500));
    m.push_vec_convert(vec![Part { a: 2, b: 2 }]);
    assert_eq!(m.read(2), Some(&Part { a: 2, b: 2 }));
}
