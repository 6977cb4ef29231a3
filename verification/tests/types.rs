use goz::types::{Frn, VolumePhase};

#[test]
fn frn_splits_record_and_sequence() {
    let frn = Frn(0x0005_0000_0000_002A);
    assert_eq!(frn.record_number(), 0x2A);
    assert_eq!(frn.sequence(), 5);
}

#[test]
fn frn_slot_reuse_yields_distinct_values() {
    let dead = Frn((3u64 << 48) | 42);
    let next_tenant = Frn((4u64 << 48) | 42);
    assert_eq!(dead.record_number(), next_tenant.record_number());
    assert_ne!(dead, next_tenant);
}

#[test]
fn a_phase_says_whether_results_are_complete() {
    assert!(VolumePhase::Live.is_complete());
    assert!(VolumePhase::Snapshot.is_complete());
    assert!(!VolumePhase::Bootstrapping.is_complete());
    assert!(!VolumePhase::Rescanning.is_complete());
    assert!(!VolumePhase::Offline.is_complete());
    let failed = VolumePhase::Failed { reason: "io".to_string() };
    assert!(!failed.is_complete());
    assert_eq!(failed.text(), "failed (io)");
    assert_eq!(
        VolumePhase::Snapshot.text(),
        "snapshot (no journal; cannot track changes)"
    );
}
