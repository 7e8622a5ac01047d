use tuxkitchen::sdat::{
    count_blocks, move_writes, parse_rangeset, parse_transfer_header, tally, transfer_lines, transfer_step, Operand,
    RangesetError, TransferCommand, TransferError, BLOCK,
};

fn lines(text: &str) -> Vec<Vec<char>> {
    transfer_lines(text)
}

#[test]
fn rangeset_errors_name_the_problem() {
    assert_eq!(parse_rangeset("2,0,x,5,6"), Err(RangesetError::BadToken("x".to_string())));
    assert_eq!(parse_rangeset("1,5,2"), Err(RangesetError::Inverted));
    assert_eq!(parse_rangeset("2,0,1"), Err(RangesetError::CountMismatch));
    assert_eq!(parse_rangeset("1,0,3,5"), Err(RangesetError::CountMismatch));
    assert_eq!(parse_rangeset("1,0,3,5,6"), Err(RangesetError::CountMismatch));
    assert_eq!(parse_rangeset("0"), Ok(vec![]));
    assert_eq!(parse_rangeset("1,3,3"), Ok(vec![(3, 3)]));
}

#[test]
fn header_versions_and_counts() {
    let h = parse_transfer_header(&lines("4\n6\n0\n0\nnew\n1,0,6")).unwrap();
    assert_eq!((h.version, h.new_blocks, h.first_command), (4, 6, 4));
    let h = parse_transfer_header(&lines(" 3 \n10\n0\nzero\n1,0,10\n")).unwrap();
    assert_eq!((h.version, h.new_blocks, h.first_command), (3, 10, 3));
    assert_eq!(parse_transfer_header(&lines("1\n1\nnew\n1,0,1\n")), Err(TransferError::UnsupportedVersion(1)));
    assert_eq!(parse_transfer_header(&lines("5\n1\n0\n0\nnew\n1,0,1\n")), Err(TransferError::UnsupportedVersion(5)));
    assert_eq!(parse_transfer_header(&lines("")), Err(TransferError::MissingVersion));
    assert_eq!(parse_transfer_header(&lines("4\nmany")), Err(TransferError::MissingBlockCount));
    assert_eq!(parse_transfer_header(&lines("2\n1")), Err(TransferError::MissingStashCount));
    assert_eq!(parse_transfer_header(&lines("4\n1\n0")), Err(TransferError::MissingStashEntries));
}

#[test]
fn commands_are_read_with_their_operands() {
    let ls = lines("4\n4\n0\n0\nnew\n1,0,1\nzero\n1,1,2\n\nerase\n2,0,1,3,4\nmove\ndeadbeef\n1,0,2\n1,2,4\nstash\nabc\n1,0,1\nfree\nabc\n");
    assert_eq!(transfer_step(&ls, 4), Ok((Some(TransferCommand::New(vec![(0, 1)])), 6)));
    assert_eq!(transfer_step(&ls, 6), Ok((Some(TransferCommand::Zero(vec![(1, 2)])), 8)));
    assert_eq!(transfer_step(&ls, 8), Ok((None, 9)));
    assert_eq!(transfer_step(&ls, 9), Ok((None, 11)));
    assert_eq!(
        transfer_step(&ls, 11),
        Ok((Some(TransferCommand::Move { src: vec![(0, 2)], dst: vec![(2, 4)] }), 15))
    );
    assert_eq!(
        transfer_step(&ls, 15),
        Ok((Some(TransferCommand::Stash { hash: "abc".to_string(), src: vec![(0, 1)] }), 18))
    );
    assert_eq!(transfer_step(&ls, 18), Ok((Some(TransferCommand::Free("abc".to_string())), 20)));
}

#[test]
fn rejects_bsdiff_and_unknown_commands() {
    let ls = lines("4\n1\n0\n0\nbsdiff\nhash\n1,0,1\n1,0,1\n");
    assert_eq!(transfer_step(&ls, 4), Err(TransferError::Incremental));
    let ls = lines("4\n1\n0\n0\nimgdiff\n");
    assert_eq!(transfer_step(&ls, 4), Err(TransferError::Incremental));
    let ls = lines("4\n1\n0\n0\nfrobnicate\n");
    assert_eq!(transfer_step(&ls, 4), Err(TransferError::UnknownCommand("frobnicate".to_string())));
    let ls = lines("4\n1\n0\n0\nmove\n-\n1,0,1\n1,1,2\n");
    assert_eq!(transfer_step(&ls, 4), Err(TransferError::StashSourcedMove));
    let ls = lines("4\n1\n0\n0\nnew");
    assert_eq!(transfer_step(&ls, 4), Err(TransferError::Missing(Operand::NewRanges)));
    let ls = lines("4\n1\n0\n0\nmove\nh\n1,0,1");
    assert_eq!(transfer_step(&ls, 4), Err(TransferError::Missing(Operand::MoveDest)));
    let ls = lines("4\n1\n0\n0\nzero\n2,0,1");
    assert_eq!(transfer_step(&ls, 4), Err(TransferError::Range(RangesetError::CountMismatch, "2,0,1".to_string())));
}

#[test]
fn move_reuses_blocks_within_output() {
    let (writes, fits) = move_writes(&[(0, 2)], &[(2, 4)]);
    assert!(fits);
    assert_eq!(writes, vec![(2, 0, 2)]);
    let (writes, fits) = move_writes(&[(0, 1), (5, 7)], &[(10, 11), (20, 22)]);
    assert!(fits);
    assert_eq!(writes, vec![(10, 0, 1), (20, 1, 2)]);
    let (writes, fits) = move_writes(&[(0, 2)], &[(4, 5), (6, 9)]);
    assert!(!fits);
    assert_eq!(writes, vec![(4, 0, 1)]);
}

#[test]
fn block_counts() {
    assert_eq!(count_blocks(&[(0, 6)]), 6);
    assert_eq!(count_blocks(&[(0, 3), (5, 6), (9, 9)]), 4);
    assert_eq!(count_blocks(&[]), 0);
    assert_eq!(BLOCK, 4096);
}

#[test]
fn new_and_zero_commands_cover_the_image() {
    let ls = lines("4\n4\n0\n0\nnew\n1,0,1\nzero\n1,1,2\nnew\n1,2,3\nzero\n1,3,4");
    let h = parse_transfer_header(&ls).unwrap();
    assert_eq!((h.version, h.new_blocks, h.first_command), (4, 4, 4));
    let mut i = h.first_command;
    let mut cmds = Vec::new();
    while i < ls.len() {
        let (c, next) = transfer_step(&ls, i).unwrap();
        cmds.push(c.unwrap());
        i = next;
    }
    assert_eq!(
        cmds,
        vec![
            TransferCommand::New(vec![(0, 1)]),
            TransferCommand::Zero(vec![(1, 2)]),
            TransferCommand::New(vec![(2, 3)]),
            TransferCommand::Zero(vec![(3, 4)]),
        ]
    );
    let ls = lines("4\n6\n0\n0\nnew\n1,0,6");
    assert_eq!(transfer_step(&ls, 4), Ok((Some(TransferCommand::New(vec![(0, 6)])), 6)));
    assert_eq!(count_blocks(&[(0, 6)]) * BLOCK as u128, 6 * 4096);
}

#[test]
fn tally_counts_blocks_by_kind() {
    let mut stats: (u128, u128, u128) = (0, 0, 0);
    stats = tally(stats, &TransferCommand::New(vec![(0, 2), (4, 5)]));
    stats = tally(stats, &TransferCommand::Zero(vec![(2, 4)]));
    stats = tally(stats, &TransferCommand::Move { src: vec![(0, 1)], dst: vec![(5, 6)] });
    stats = tally(stats, &TransferCommand::Free("h".to_string()));
    assert_eq!(stats, (3, 2, 1));
    assert_eq!(tally((u128::MAX, 0, 0), &TransferCommand::New(vec![(0, 1)])), (u128::MAX, 0, 0));
}
