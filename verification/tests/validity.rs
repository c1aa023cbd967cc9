use bao_fsm::commp::CommpHasher;
use bao_fsm::create::CreateOutboard;
use bao_fsm::error::IoError;
use bao_fsm::hash::Digest;
use bao_fsm::outboard::{OutboardMut, PreOrderOutboard};
use bao_fsm::ranges::ChunkRanges;
use bao_fsm::tree::{BlockSize, ChunkNum, TreeNode};
use bao_fsm::validate::{
    valid_outboard_ranges, valid_ranges, ChunkSpan, ValidateStep, Validator,
};

fn blob(size: usize) -> Vec<u8> {
    (0..size).map(|i| (i / 1024 * 17 + i % 253) as u8).collect()
}

fn created(data: &[u8], log: u8) -> PreOrderOutboard<CommpHasher> {
    PreOrderOutboard::create(data, BlockSize(log)).unwrap()
}

fn span(start: u64, end: u64) -> ChunkSpan {
    ChunkSpan { start: ChunkNum(start), end: ChunkNum(end) }
}

#[test]
fn blob_is_valid_everywhere() {
    let data = blob(5000);
    let mut ob = created(&data, 1);
    let all = ChunkRanges::all();
    let groups = vec![span(0, 2), span(2, 4), span(4, 5)];
    assert_eq!(valid_ranges(&mut ob, &data, &all), (groups.clone(), Ok(())));
    assert_eq!(valid_outboard_ranges(&mut ob, &all), (groups, Ok(())));
}

#[test]
fn only_what_is_asked_for_is_validated() {
    let data = blob(5000);
    let mut ob = created(&data, 1);
    let some = ChunkRanges::new(vec![3, 4, 100]).unwrap();
    assert_eq!(valid_ranges(&mut ob, &data, &some), (vec![span(2, 4), span(4, 5)], Ok(())));
    assert_eq!(valid_outboard_ranges(&mut ob, &some), (vec![span(2, 4), span(4, 5)], Ok(())));
    let none = ChunkRanges::empty();
    assert_eq!(valid_ranges(&mut ob, &data, &none), (vec![], Ok(())));
    assert_eq!(valid_outboard_ranges(&mut ob, &none), (vec![], Ok(())));
}

#[test]
fn changed_data_is_not_valid() {
    let data = blob(5000);
    let mut ob = created(&data, 1);
    let all = ChunkRanges::all();
    let mut bad = data.clone();
    bad[2100] ^= 1;
    assert_eq!(valid_ranges(&mut ob, &bad, &all), (vec![span(0, 2), span(4, 5)], Ok(())));
}

#[test]
fn nothing_below_a_wrong_pair_is_valid() {
    let data = blob(5000);
    let mut ob = created(&data, 0);
    let all = ChunkRanges::all();
    let zero = Digest::zero();
    assert_eq!(ob.save(TreeNode(2), &(zero, zero)), Ok(()));
    let rest = vec![span(0, 1), span(1, 2), span(4, 5)];
    assert_eq!(valid_ranges(&mut ob, &data, &all), (rest.clone(), Ok(())));
    assert_eq!(valid_outboard_ranges(&mut ob, &all), (rest, Ok(())));
    ob.root = zero;
    assert_eq!(valid_outboard_ranges(&mut ob, &all), (vec![], Ok(())));
}

#[test]
fn missing_data_ends_validation() {
    let data = blob(5000);
    let mut ob = created(&data, 0);
    let all = ChunkRanges::all();
    assert_eq!(
        valid_ranges(&mut ob, &data[..3000], &all),
        (vec![span(0, 1), span(1, 2)], Err(IoError::UnexpectedEof))
    );
}

#[test]
fn one_group_is_validated_whatever_is_asked_for() {
    let data = blob(1500);
    let mut ob = created(&data, 1);
    let none = ChunkRanges::empty();
    assert_eq!(valid_ranges(&mut ob, &data, &none), (vec![span(0, 2)], Ok(())));
    assert_eq!(valid_outboard_ranges(&mut ob, &none), (vec![span(0, 2)], Ok(())));
    let bad = blob(1501)[1..].to_vec();
    assert_eq!(valid_ranges(&mut ob, &bad, &none), (vec![], Ok(())));
}

#[test]
fn empty_blob_is_valid() {
    let mut ob = created(&[], 0);
    let all = ChunkRanges::all();
    assert_eq!(valid_ranges(&mut ob, &[], &all), (vec![span(0, 0)], Ok(())));
}

#[test]
fn validator_says_what_to_read() {
    let data = blob(2000);
    let ob = created(&data, 0);
    let mut validator: Validator<CommpHasher> =
        Validator::new(ob.root, ob.tree, &ChunkRanges::all());
    assert_eq!(validator.want(), Some(ValidateStep::Load(TreeNode(0))));
    let pair = bao_fsm::hash::read_parent(&ob.data);
    validator.loaded(Some(pair));
    assert_eq!(validator.want(), Some(ValidateStep::Check { start: 0, size: 1024 }));
    assert_eq!(validator.check(&data[..1024]), Some(span(0, 1)));
    assert_eq!(validator.want(), Some(ValidateStep::Check { start: 1024, size: 976 }));
    assert_eq!(validator.accept(), span(1, 2));
    assert_eq!(validator.want(), None);
}

#[test]
fn validator_stops_where_a_pair_is_missing() {
    let data = blob(2000);
    let ob = created(&data, 0);
    let mut validator: Validator<CommpHasher> =
        Validator::new(ob.root, ob.tree, &ChunkRanges::all());
    validator.loaded(None);
    assert_eq!(validator.want(), None);
}
