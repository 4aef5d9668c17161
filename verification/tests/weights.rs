use pallet_projects::weights::{RuntimeDbWeight, Weight, WeightInfo};

#[test]
fn weights_add_one_read_and_one_write() {
    let info = WeightInfo { db_weight: RuntimeDbWeight { read: 25_000_000, write: 100_000_000 } };
    assert_eq!(info.create(), Weight { ref_time: 135_487_000, proof_size: 4703 });
    assert_eq!(info.update(), Weight { ref_time: 136_249_000, proof_size: 4703 });
    assert_eq!(info.remove(), Weight { ref_time: 136_866_000, proof_size: 4703 });
}

#[test]
fn weights_saturate() {
    let info = WeightInfo { db_weight: RuntimeDbWeight { read: u64::MAX, write: 1 } };
    assert_eq!(info.create(), Weight { ref_time: u64::MAX, proof_size: 4703 });
    let db = RuntimeDbWeight { read: u64::MAX / 2 + 1, write: 0 };
    assert_eq!(db.reads(2), Weight { ref_time: u64::MAX, proof_size: 0 });
    assert_eq!(Weight::from_parts(1, 2).saturating_add(Weight::from_parts(u64::MAX, 3)), Weight { ref_time: u64::MAX, proof_size: 5 });
}
