use tuxkitchen::payload::{
    diff_op_name, dst_blocks, extraction_outcome, parse_manifest, partition_outcome, plan_partition, read_payload, BlobCodec,
    Extent, ExtractStep, Operation, Partition, PartitionOutcome, PayloadError, Proto, OP_REPLACE, OP_REPLACE_XZ, OP_SOURCE_COPY,
    OP_ZERO,
};

fn varint(v: u64) -> Vec<u8> {
    let mut out = Vec::new();
    let mut v = v;
    loop {
        let b = (v & 0x7f) as u8;
        v >>= 7;
        if v == 0 {
            out.push(b);
            break;
        }
        out.push(b | 0x80);
    }
    out
}

fn key(field: u64, wire: u64) -> Vec<u8> {
    varint((field << 3) | wire)
}

fn len_field(field: u64, data: &[u8]) -> Vec<u8> {
    let mut out = key(field, 2);
    out.extend(varint(data.len() as u64));
    out.extend_from_slice(data);
    out
}

fn extent(start: u64, num: u64) -> Vec<u8> {
    let mut e = key(1, 0);
    e.extend(varint(start));
    e.extend(key(2, 0));
    e.extend(varint(num));
    e
}

fn manifest_and_blob() -> (Vec<u8>, Vec<u8>) {
    let mut op_zero = key(1, 0);
    op_zero.extend(varint(OP_ZERO));
    op_zero.extend(len_field(6, &extent(0, 1)));

    let blob: Vec<u8> = (0..4096u32).map(|i| (i % 251) as u8).collect();
    let mut op_replace = key(1, 0);
    op_replace.extend(varint(OP_REPLACE));
    op_replace.extend(key(2, 0));
    op_replace.extend(varint(0));
    op_replace.extend(key(3, 0));
    op_replace.extend(varint(blob.len() as u64));
    op_replace.extend(len_field(6, &extent(1, 1)));

    let mut image_info = key(1, 0);
    image_info.extend(varint(2 * 4096));

    let mut part = len_field(1, b"system");
    part.extend(len_field(6, &image_info));
    part.extend(len_field(8, &op_zero));
    part.extend(len_field(8, &op_replace));

    let mut manifest = key(7, 0);
    manifest.extend(varint(4096));
    manifest.extend(len_field(3, &part));
    (manifest, blob)
}

fn payload(manifest: &[u8], blob: &[u8]) -> Vec<u8> {
    let mut p = Vec::new();
    p.extend_from_slice(b"CrAU");
    p.extend_from_slice(&2u64.to_be_bytes());
    p.extend_from_slice(&(manifest.len() as u64).to_be_bytes());
    p.extend_from_slice(&0u32.to_be_bytes());
    p.extend_from_slice(manifest);
    p.extend_from_slice(blob);
    p
}

#[test]
fn extracts_full_payload_partitions() {
    let (manifest, blob) = manifest_and_blob();
    let (bs, parts) = parse_manifest(&manifest);
    assert_eq!(bs, 4096);
    assert_eq!(parts.len(), 1);
    assert_eq!(parts[0].name, "system");
    assert_eq!(parts[0].size, Some(8192));
    assert_eq!(parts[0].ops.len(), 2);
    assert_eq!(parts[0].ops[0].op_type, OP_ZERO);
    assert_eq!(parts[0].ops[1].data_length, blob.len() as u64);
    assert_eq!(dst_blocks(&parts[0].ops[1]), Some(1));

    let file = payload(&manifest, &blob);
    let m = read_payload(&file).unwrap();
    assert_eq!(m.block_size, 4096);
    assert_eq!(m.blob_start, 24 + manifest.len() as u64);
    let plan = plan_partition(&m.partitions[0], m.block_size, m.blob_start).unwrap();
    assert_eq!(plan.image_size, 8192);
    assert!(plan.diff_ops.is_empty());
    assert_eq!(plan.steps.len(), 2);
    match &plan.steps[0] {
        (0, ExtractStep::Zero(d)) => assert_eq!(d, &vec![Extent { start: 0, num: 1 }]),
        other => panic!("{:?}", other),
    }
    match &plan.steps[1] {
        (1, ExtractStep::Blob { codec, offset, length, dst }) => {
            assert_eq!(*codec, BlobCodec::Plain);
            assert_eq!(*offset, 24 + manifest.len() as u128);
            assert_eq!(*length, 4096);
            assert_eq!(dst, &vec![Extent { start: 1, num: 1 }]);
            let at = *offset as usize;
            assert_eq!(&file[at..at + *length as usize], &blob[..]);
        }
        other => panic!("{:?}", other),
    }
}

#[test]
fn payload_headers_are_checked() {
    let (manifest, blob) = manifest_and_blob();
    let good = payload(&manifest, &blob);
    let mut bad = good.clone();
    bad[0] = b'X';
    assert_eq!(read_payload(&bad).err(), Some(PayloadError::NotPayload));
    assert_eq!(read_payload(&good[..20]).err(), Some(PayloadError::NotPayload));
    let mut v1 = good.clone();
    v1[11] = 1;
    assert_eq!(read_payload(&v1).err(), Some(PayloadError::UnsupportedVersion(1)));
    assert_eq!(read_payload(&good[..30]).err(), Some(PayloadError::ManifestPastEnd));
    let empty = payload(&key(7, 0).into_iter().chain(varint(4096)).collect::<Vec<u8>>(), &[]);
    assert_eq!(read_payload(&empty).err(), Some(PayloadError::NoPartitions));
}

#[test]
fn sizes_come_from_the_largest_operation() {
    let op = |t: u64, num: u64| Operation {
        op_type: t,
        data_offset: 10,
        data_length: 20,
        dst: vec![Extent { start: 0, num }, Extent { start: 100, num: 1 }],
    };
    let part = Partition { name: "vendor".to_string(), size: None, ops: vec![op(OP_REPLACE_XZ, 3), op(OP_SOURCE_COPY, 1), op(99, 7)] };
    let plan = plan_partition(&part, 4096, 1000).unwrap();
    assert_eq!(plan.image_size, 8 * 4096);
    assert_eq!(plan.diff_ops, vec!["op 1 (SOURCE_COPY)".to_string(), "op 2 (type 99)".to_string()]);
    assert_eq!(plan.steps.len(), 1);
    assert!(matches!(&plan.steps[0], (0, ExtractStep::Blob { codec: BlobCodec::Xz, offset: 1010, length: 20, .. })));

    let huge = Partition { name: "big".to_string(), size: None, ops: vec![op(OP_ZERO, u64::MAX / 2)] };
    assert_eq!(plan_partition(&huge, 4096, 0).err(), Some(PayloadError::SizeOverflow("big".to_string())));
    let wide = Operation { op_type: OP_ZERO, data_offset: 0, data_length: 0, dst: vec![Extent { start: 0, num: u64::MAX }, Extent { start: 0, num: 1 }] };
    assert_eq!(dst_blocks(&wide), None);
}

#[test]
fn outcomes_of_an_extraction() {
    let ok = extraction_outcome(vec!["system".to_string()], &[]);
    assert_eq!(ok, Ok(vec!["system".to_string()]));
    assert_eq!(extraction_outcome(vec![], &[]), Err(PayloadError::NothingExtracted));
    let delta = extraction_outcome(vec!["boot".to_string()], &[("system".to_string(), 3), ("vendor".to_string(), 1)]);
    assert_eq!(delta, Err(PayloadError::DeltaOnly("system (3 diff op(s)), vendor (1 diff op(s))".to_string())));
    assert_eq!(diff_op_name(OP_SOURCE_COPY), Some("SOURCE_COPY"));
    assert_eq!(diff_op_name(OP_REPLACE), None);
}

#[test]
fn varints_and_fields() {
    let data = [0xac, 0x02, 0x08, 0x96, 0x01];
    let mut p = Proto::new(&data);
    assert_eq!(p.varint(), Some(300));
    assert_eq!(p.field(), Some((1, 0)));
    assert_eq!(p.varint(), Some(150));
    assert_eq!(p.varint(), None);
    let long = [0xffu8; 11];
    let mut q = Proto::new(&long);
    assert_eq!(q.varint(), None);
}

#[test]
fn partitions_with_failed_operations_are_not_listed() {
    assert_eq!(partition_outcome(0, 0), PartitionOutcome::Extracted);
    assert_eq!(partition_outcome(0, 2), PartitionOutcome::Failed);
    assert_eq!(partition_outcome(1, 2), PartitionOutcome::NeedsOldImage);
    assert_eq!(partition_outcome(3, 0), PartitionOutcome::NeedsOldImage);
}
