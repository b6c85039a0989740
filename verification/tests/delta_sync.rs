use rsync_core::checksum::weak_pair;
use rsync_core::file::delta::DeltaOp;
use rsync_core::file::{patch_file, Delta, Signature};
use rsync_core::utilities::{join_to_path_then_string, string_from_path_ref};
use rsync_core::{MagicNumber, RsyncResult, RsyncStats};

#[test]
fn it_works() {
    assert_eq!(2 + 2, 4);
}

#[test]
fn create_signature_from_file() {
    let basis = vec![0x23u8; 30_000];
    let (signature, stats) = Signature::new(&basis).expect("Unable to create signature");
    assert_eq!(signature.block_len, 2048);
    assert_eq!(signature.strong_len, 16);
    // ceil(30000 / 2048) == 15
    assert_eq!(signature.blocks.len(), 15);
    assert_eq!(stats.sig_blocks, 15);
    assert_eq!(stats.in_bytes, 30_000);
}

#[test]
fn test_serialization_into_bytes() {
    let basis = vec![0x23u8; 30_000];
    let (signature, _) = Signature::new(&basis).expect("Unable to create signature");
    let block_len = signature.block_len;
    let strong_len = signature.strong_len;
    let weaks: Vec<u32> = signature.blocks.iter().map(|b| b.weak).collect();
    let strongs: Vec<Vec<u8>> = signature.blocks.iter().map(|b| b.strong.clone()).collect();
    let bytes = signature.into_bytes();
    assert_eq!(bytes.len(), 16 + 15 * (4 + 16));
    let reloaded = Signature::from_bytes(&bytes).expect("Unable to reload signature");
    assert_eq!(reloaded.block_len, block_len);
    assert_eq!(reloaded.strong_len, strong_len);
    assert_eq!(reloaded.blocks.len(), 15);
    for i in 0..15 {
        assert_eq!(reloaded.blocks[i].weak, weaks[i]);
        assert_eq!(reloaded.blocks[i].strong, strongs[i]);
    }
}

#[test]
fn create_delta_from_signature_and_file() {
    let basis = b"A new file".to_vec();
    let target = b" a new Fail".to_vec();
    let (signature, _stats) = Signature::new(&basis).expect("Unable to create signature");
    let (delta, stats) = Delta::delta(&signature, &target);
    assert_eq!(stats.in_bytes, target.len() as u64);
    assert_eq!(stats.out_bytes, stats.copy_bytes + stats.lit_bytes);
    let out = patch_file(&basis, &delta).expect("Unable to apply delta");
    assert_eq!(out, target);
}

#[test]
fn apply_a_delta_to_a_file() {
    let basis = vec![0x23u8; 35_000];
    let target = vec![0x67u8; 35_000];
    let (signature, _stats) = Signature::new(&basis).expect("Unable to create signature");
    let (delta, stats) = Delta::delta(&signature, &target);
    // no window of the target matches any basis block: the delta is all literal
    assert_eq!(stats.copy_cmds, 0);
    assert_eq!(stats.copy_bytes, 0);
    assert_eq!(stats.lit_bytes, 35_000);
    let data = patch_file(&basis, &delta).expect("Unable to apply delta");
    assert_eq!(data, target);
}

#[test]
fn identical_buffers_give_near_minimal_delta() {
    let basis = vec![0x23u8; 30_000];
    let target = basis.clone();
    let (signature, _stats) = Signature::new(&basis).expect("Unable to create signature");
    let (delta, stats) = Delta::delta(&signature, &target);
    assert_eq!(stats.lit_cmds, 0);
    assert_eq!(stats.lit_bytes, 0);
    assert_eq!(stats.copy_bytes, 30_000);
    assert!(delta.ops.iter().all(|op| matches!(op, DeltaOp::Copy { .. })));
    let out = patch_file(&basis, &delta).expect("Unable to apply delta");
    assert_eq!(out, target);
}

#[test]
fn round_trip_mixed_edit() {
    // a basis with varied content, and a target that keeps some blocks,
    // changes a region and appends a tail
    let mut basis = Vec::new();
    for i in 0..10_000u32 {
        basis.push((i % 251) as u8);
    }
    let mut target = basis.clone();
    for i in 3000..3500 {
        target[i] = 0xAB;
    }
    target.extend_from_slice(b"appended tail data");
    let (signature, _stats) = Signature::new(&basis).expect("Unable to create signature");
    let (delta, stats) = Delta::delta(&signature, &target);
    assert_eq!(
        stats.copy_bytes + stats.lit_bytes,
        target.len() as u64
    );
    let out = patch_file(&basis, &delta).expect("Unable to apply delta");
    assert_eq!(out, target);
}

#[test]
fn encoding_is_deterministic() {
    let basis = vec![0x11u8; 5000];
    let mut target = vec![0x11u8; 5000];
    target[100] = 0x22;
    let (signature, _) = Signature::new(&basis).expect("Unable to create signature");
    let (delta1, _) = Delta::delta(&signature, &target);
    let (delta2, _) = Delta::delta(&signature, &target);
    assert_eq!(delta1.into_bytes(), delta2.into_bytes());
}

#[test]
fn empty_basis_gives_single_literal() {
    let basis: Vec<u8> = Vec::new();
    let target = b"fresh content".to_vec();
    let (signature, stats) = Signature::new(&basis).expect("Unable to create signature");
    assert_eq!(stats.sig_blocks, 0);
    assert_eq!(signature.blocks.len(), 0);
    let (delta, _) = Delta::delta(&signature, &target);
    assert_eq!(delta.ops.len(), 1);
    match &delta.ops[0] {
        DeltaOp::Literal { bytes } => assert_eq!(bytes, &target),
        DeltaOp::Copy { .. } => panic!("expected a literal"),
    }
    let out = patch_file(&basis, &delta).expect("Unable to apply delta");
    assert_eq!(out, target);
}

#[test]
fn empty_target_gives_empty_delta() {
    let basis = b"some basis".to_vec();
    let target: Vec<u8> = Vec::new();
    let (signature, _) = Signature::new(&basis).expect("Unable to create signature");
    let (delta, stats) = Delta::delta(&signature, &target);
    assert_eq!(delta.ops.len(), 0);
    assert_eq!(stats.out_bytes, 0);
    let out = patch_file(&basis, &delta).expect("Unable to apply delta");
    assert_eq!(out, target);
}

#[test]
fn out_of_range_copy_is_rejected_as_corrupt() {
    let basis = vec![0x23u8; 100];
    let delta = Delta {
        ops: vec![DeltaOp::Copy { source_offset: 90, length: 20 }],
    };
    assert!(matches!(patch_file(&basis, &delta), Err(RsyncResult::Corrupt)));
}

#[test]
fn generate_rejects_bad_parameters() {
    let basis = vec![0u8; 10];
    assert!(matches!(
        Signature::generate(&basis, 0, 16),
        Err(RsyncResult::ParamError)
    ));
    assert!(matches!(
        Signature::generate(&basis, 2048, 0),
        Err(RsyncResult::ParamError)
    ));
    assert!(matches!(
        Signature::generate(&basis, 2048, 17),
        Err(RsyncResult::ParamError)
    ));
}

#[test]
fn signature_header_layout_is_fixed() {
    let basis: Vec<u8> = Vec::new();
    let (signature, _) = Signature::new(&basis).expect("Unable to create signature");
    let bytes = signature.into_bytes();
    // magic 0x72730136 LE, block_len 2048 LE, strong_len 16 LE, count 0
    assert_eq!(
        bytes,
        vec![0x36, 0x01, 0x73, 0x72, 0x00, 0x08, 0x00, 0x00, 16, 0, 0, 0, 0, 0, 0, 0]
    );
}

#[test]
fn signature_from_bytes_rejects_bad_magic() {
    let mut bytes = vec![0u8; 16];
    bytes[0] = 0x99;
    assert!(matches!(
        Signature::from_bytes(&bytes),
        Err(RsyncResult::BadMagicError)
    ));
}

#[test]
fn signature_from_bytes_rejects_truncation() {
    assert!(matches!(
        Signature::from_bytes(&[0x36, 0x01, 0x73]),
        Err(RsyncResult::Corrupt)
    ));
    // valid header claiming one block, but no entry bytes follow
    let bytes = vec![
        0x36, 0x01, 0x73, 0x72, 0x00, 0x08, 0x00, 0x00, 16, 0, 0, 0, 1, 0, 0, 0,
    ];
    assert!(matches!(Signature::from_bytes(&bytes), Err(RsyncResult::Corrupt)));
}

#[test]
fn delta_serialization_round_trips() {
    let basis = vec![0x42u8; 6000];
    let mut target = basis.clone();
    target[5000] = 0x43;
    let (signature, _) = Signature::new(&basis).expect("Unable to create signature");
    let (delta, _) = Delta::delta(&signature, &target);
    let expected = patch_file(&basis, &delta).expect("Unable to apply delta");
    let bytes = delta.into_bytes();
    let reloaded = Delta::from_bytes(&bytes).expect("Unable to reload delta");
    let out = patch_file(&basis, &reloaded).expect("Unable to apply reloaded delta");
    assert_eq!(out, expected);
    assert_eq!(out, target);
}

#[test]
fn delta_wire_layout_is_fixed() {
    let delta = Delta {
        ops: vec![
            DeltaOp::Copy { source_offset: 2048, length: 100 },
            DeltaOp::Literal { bytes: b"abc".to_vec() },
        ],
    };
    // magic 0x72730236 LE; copy: tag 1, varint 2048 = [0x80, 0x10], varint 100;
    // literal: tag 0, varint 3, payload
    assert_eq!(
        delta.into_bytes(),
        vec![0x36, 0x02, 0x73, 0x72, 1, 0x80, 0x10, 100, 0, 3, b'a', b'b', b'c']
    );
}

#[test]
fn delta_from_bytes_rejects_bad_magic_and_corruption() {
    assert!(matches!(
        Delta::from_bytes(&[0x36, 0x01, 0x73, 0x72]),
        Err(RsyncResult::BadMagicError)
    ));
    // good magic, then a truncated copy record
    assert!(matches!(
        Delta::from_bytes(&[0x36, 0x02, 0x73, 0x72, 1, 0x80]),
        Err(RsyncResult::Corrupt)
    ));
    // good magic, unknown tag
    assert!(matches!(
        Delta::from_bytes(&[0x36, 0x02, 0x73, 0x72, 7]),
        Err(RsyncResult::Corrupt)
    ));
    // literal claiming more payload than remains
    assert!(matches!(
        Delta::from_bytes(&[0x36, 0x02, 0x73, 0x72, 0, 5, b'x']),
        Err(RsyncResult::Corrupt)
    ));
}

#[test]
fn weak_checksum_matches_formula() {
    // low half: 1 + 2 + 3 = 6; high half: 3*1 + 2*2 + 1*3 = 10
    let (a, b) = weak_pair(&[1, 2, 3]);
    assert_eq!(a, 6);
    assert_eq!(b, 10);
    let (a, b) = weak_pair(&[]);
    assert_eq!(a, 0);
    assert_eq!(b, 0);
}

#[test]
fn strong_checksum_distinguishes_weak_collisions() {
    // both buffers have byte sum 3 and weighted sum 6, so their weak
    // checksums collide, and they share their first 16 bytes; only a real
    // digest of the whole block tells them apart
    let mut basis = vec![0u8; 2048];
    basis[17] = 3;
    let mut target = vec![0u8; 2048];
    target[16] = 1;
    target[17] = 1;
    target[18] = 1;
    let (wa1, wb1) = weak_pair(&basis);
    let (wa2, wb2) = weak_pair(&target);
    assert_eq!((wa1, wb1), (wa2, wb2));
    let (signature, _) = Signature::new(&basis).expect("Unable to create signature");
    let (delta, stats) = Delta::delta(&signature, &target);
    assert_eq!(stats.copy_cmds, 0);
    let out = patch_file(&basis, &delta).expect("Unable to apply delta");
    assert_eq!(out, target);
}

#[test]
fn magic_numbers_carry_their_tags() {
    assert_eq!(MagicNumber::MD5.value(), 0x72730136);
    assert_eq!(MagicNumber::Blake2Hash.value(), 0x72730137);
    assert_eq!(MagicNumber::Delta.value(), 0x72730236);
}

#[test]
fn stats_start_at_zero() {
    let stats = RsyncStats::new();
    assert_eq!(stats.lit_cmds, 0);
    assert_eq!(stats.lit_bytes, 0);
    assert_eq!(stats.copy_cmds, 0);
    assert_eq!(stats.copy_bytes, 0);
    assert_eq!(stats.sig_blocks, 0);
    assert_eq!(stats.block_len, 0);
    assert_eq!(stats.in_bytes, 0);
    assert_eq!(stats.out_bytes, 0);
}

#[test]
fn path_string_helpers() {
    assert_eq!(string_from_path_ref("some/dir"), "some/dir");
    assert_eq!(join_to_path_then_string("some/dir", "file.txt"), "some/dir/file.txt");
    assert_eq!(join_to_path_then_string("some/dir/", "file.txt"), "some/dir/file.txt");
    assert_eq!(join_to_path_then_string("", "file.txt"), "file.txt");
    // an absolute component replaces the path entirely
    assert_eq!(join_to_path_then_string("some/dir", "/tmp/file.txt"), "/tmp/file.txt");
    assert_eq!(join_to_path_then_string("some/dir/", "/x"), "/x");
    assert_eq!(join_to_path_then_string("", "/x"), "/x");
}
