use zelkova::tensor::{workgroups, TensorMeta, TensorOrder, TensorRank, Workgroup};

#[test]
fn order_sum_product_and_square() {
    let o = TensorOrder::new(vec![2, 3, 4]);
    assert_eq!(o.count(), 9);
    assert_eq!(o.size(), 24);
    assert!(!o.square());
    assert_eq!(o.pull(), vec![2, 3, 4]);
    assert!(TensorOrder::new(vec![3, 3]).square());
    assert!(TensorOrder::new(vec![]).square());
    assert_eq!(TensorOrder::new(vec![]).size(), 1);
    assert_eq!(TensorOrder::new(vec![]).count(), 0);
    assert_eq!(TensorOrder::new(vec![0, 4294967295, 7]).size(), 0);
}

#[test]
fn checked_size_detects_overflow() {
    assert_eq!(TensorOrder::new(vec![65536, 65536]).checked_size(), None);
    assert_eq!(TensorOrder::new(vec![65535, 65537]).checked_size(), Some(4294967295));
    assert_eq!(TensorOrder::new(vec![65536, 65536, 0]).checked_size(), Some(0));
    assert!(TensorOrder::new(vec![1, 2]).matches(&TensorOrder::new(vec![1, 2])));
    assert!(!TensorOrder::new(vec![1, 2]).matches(&TensorOrder::new(vec![2, 1])));
}

#[test]
fn rank_sizes() {
    assert_eq!(TensorRank::Scalar.size(), 1);
    assert_eq!(TensorRank::Vector(7).size(), 7);
    assert_eq!(TensorRank::Matrix(3, 4).size(), 12);
    assert_eq!(TensorRank::Cube(2, 3, 4).size(), 24);
    assert_eq!(TensorRank::Cube(0, u64::MAX, u64::MAX).size(), 0);
}

#[test]
fn rank_square() {
    assert!(!TensorRank::Scalar.square());
    assert!(!TensorRank::Vector(3).square());
    assert!(TensorRank::Matrix(3, 3).square());
    assert!(!TensorRank::Matrix(3, 4).square());
    assert!(TensorRank::Cube(2, 2, 2).square());
    assert!(!TensorRank::Cube(2, 2, 3).square());
}

#[test]
fn workgroup_collapse_and_count() {
    assert_eq!(Workgroup::Single(64).collapse(), 64);
    assert_eq!(Workgroup::Duplet(8, 8).collapse(), 64);
    assert_eq!(Workgroup::Triplet(4, 4, 4).collapse(), 64);
    assert_eq!(Workgroup::Triplet(0, u32::MAX, u32::MAX).collapse(), 0);
    assert_eq!(workgroups(0, 64), 0);
    assert_eq!(workgroups(1, 64), 1);
    assert_eq!(workgroups(64, 64), 1);
    assert_eq!(workgroups(65, 64), 2);
    assert_eq!(workgroups(u64::MAX, 2), 1 << 63);
}

#[test]
fn meta_slots() {
    let data = [1u32, 2, 3];
    let borrowed: TensorMeta<u32, 3> = TensorMeta::from_reference(&data);
    assert_eq!(borrowed.slots(), (true, false));
    let owned: TensorMeta<u32, 3> = TensorMeta::from_persist([4, 5, 6]);
    assert_eq!(owned.slots(), (false, true));
}

#[test]
fn shape_descriptions() {
    assert_eq!(TensorOrder::new(vec![3, 4]).describe(), "Tensor of shape: [3, 4].");
    assert_eq!(TensorOrder::new(vec![]).describe(), "Tensor of shape: [].");
    assert_eq!(TensorRank::Scalar.describe(), "Tensor has implied shape.");
    assert_eq!(TensorRank::Vector(5).describe(), "Tensor has shape (5)");
    assert_eq!(TensorRank::Matrix(2, 30).describe(), "Tensor has shape (2, 30)");
    assert_eq!(TensorRank::Cube(1, 2, 3).describe(), "Tensor has shape (1, 2, 3)");
}
