use muted::raw_buf::IntWidth;
use muted::raw_buf::PrivateTypes;
use muted::Data;
use muted::MutedError;
use muted::UnionMuted;

fn tag_of(m: &UnionMuted<i32>, slot: u32) -> u8 {
    match m.variant_marker.read_bits(2 * slot, 2 * slot + 2, false, IntWidth::U8) {
        Ok(PrivateTypes::U8(code)) => code,
        other => panic!("unexpected tag read: {:?}", other),
    }
}

#[test]
fn tags_mirror_slot_kinds() {
    let mut m = UnionMuted::new(vec![1, 2, 3]);
    assert_eq!(tag_of(&m, 0), 2);
    assert_eq!(tag_of(&m, 1), 2);
    assert_eq!(tag_of(&m, 2), 2);
    m.push_vec_convert(vec![10, 20]);
    assert_eq!(tag_of(&m, 3), 1);
    assert_eq!(m.drop_vec(Some(3), None), Ok(()));
    assert_eq!(tag_of(&m, 3), 0);
    assert_eq!(m.insert_vec(3, vec![7]), Ok(()));
    assert_eq!(tag_of(&m, 3), 1);
    // Earlier tags were never disturbed.
    assert_eq!(tag_of(&m, 0), 2);
    assert_eq!(tag_of(&m, 2), 2);
}

#[test]
fn tagged_variant_behaves_like_the_plain_one() {
    let mut m = UnionMuted::new(vec![1, 2, 3, 4, 5]);
    m.push_vec_convert(vec![1, 2, 3, 4, 5]);
    let converted = UnionMuted::muted_from(vec![1, 2, 3, 4, 5]);
    assert_eq!(m.push_vec(converted), Ok(()));
    assert_eq!(m.len(), 15);
    for i in 0..15 {
        assert_eq!(m.read(i), Some(&[1, 2, 3, 4, 5][i % 5]));
    }
    assert_eq!(m.write(0, 67), Some(()));
    assert_eq!(m.read(0), Some(&67));
    assert_eq!(m.drop_vec(Some(5), None), Ok(()));
    assert_eq!(m.read(5), None);
    assert_eq!(m.len(), 15);
    assert_eq!(m.insert_vec(5, vec![420, 67]), Ok(()));
    assert_eq!(m.len(), 17);
    assert_eq!(m.flatten(), vec![67, 2, 3, 4, 5, 420, 67, 1, 2, 3, 4, 5]);
}

#[test]
fn tag_buffer_grows_with_many_slots() {
    let mut m = UnionMuted::new(vec![0]);
    for k in 0..40 {
        m.push_vec_convert(vec![k, k + 1]);
    }
    assert_eq!(m.len(), 81);
    assert_eq!(m.slot_count(), 41);
    assert_eq!(tag_of(&m, 0), 2);
    for s in 1..41 {
        assert_eq!(tag_of(&m, s), 1);
    }
    assert_eq!(m.read(80), Some(&40));
}

#[test]
fn construction_rejects_nested_references() {
    let slots: Vec<Data<i32>> = vec![Data::Val(1), Data::Rp(Some(0))];
    match UnionMuted::new_no_conv(slots) {
        Err(MutedError::NestedRef) => {},
        _ => panic!("a segment-reference element must be rejected"),
    }
    let flat: Vec<Data<i32>> = vec![Data::Val(1), Data::Val(2)];
    let m = UnionMuted::new_no_conv(flat).unwrap();
    assert_eq!(m.len(), 2);
    assert_eq!(m.read(1), Some(&2));
}

#[test]
fn tagged_push_rejects_nested_references() {
    let mut m = UnionMuted::new(vec![1]);
    let nested: Vec<Data<i32>> = vec![Data::Rp(None)];
    assert_eq!(m.push_vec(nested), Err(MutedError::NestedRef));
    assert_eq!(m.len(), 1);
    assert_eq!(m.slot_count(), 1);
}

#[test]
fn tagged_empty_construction() {
    let m: UnionMuted<i32> = UnionMuted::new(vec![]);
    assert!(m.is_empty());
    assert_eq!(m.len(), 0);
    assert_eq!(m.read(0), None);
}
