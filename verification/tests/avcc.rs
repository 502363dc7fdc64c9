use kvs_streamer::annexb::{prefix_lengths, unit_type, NalReport};
use kvs_streamer::avcc::{
    configuration_record, find_parameter_sets, generate_private_data, AvccError, ParameterSets, Profile,
};

const SEQUENCE_SET: [u8; 25] = [
    0x67, 0x64, 0x00, 0x0a, 0xac, 0x72, 0x84, 0x44, 0x26, 0x84, 0x00, 0x00, 0x03, 0x00, 0x04, 0x00, 0x00,
    0x03, 0x00, 0xca, 0x3c, 0x48, 0x96, 0x11, 0x80,
];

const PICTURE_SET: [u8; 7] = [0x68, 0xe8, 0x43, 0x8f, 0x13, 0x21, 0x30];

const SLICE: [u8; 3] = [0x65, 0x88, 0x84];

fn stream(units: &[&[u8]]) -> Vec<u8> {
    units.iter().map(|unit| [&[0, 0, 0, 1], *unit].concat()).collect::<Vec<_>>().concat()
}

fn expected_record() -> Vec<u8> {
    [
        &[1, 0x64, 0x00, 0x0a, 0xff, 0xe1, 0, 25][..],
        &SEQUENCE_SET,
        &[1, 0, 8],
        &PICTURE_SET,
        &[0],
    ]
    .concat()
}

#[test]
fn private_data_is_made_of_the_parameter_sets() {
    let data = generate_private_data(&stream(&[&SEQUENCE_SET, &PICTURE_SET, &SLICE])).unwrap();
    assert_eq!(data.record, expected_record());
    assert_eq!(data.profile, Some(0x64));
}

#[test]
fn last_unit_is_not_looked_at() {
    let found = generate_private_data(&stream(&[&SEQUENCE_SET, &PICTURE_SET]));
    assert_eq!(found.map(|data| data.record), Err(AvccError::NotFound));
}

#[test]
fn picture_set_needs_its_sequence_set_first() {
    let found = generate_private_data(&stream(&[&PICTURE_SET, &SEQUENCE_SET, &SLICE]));
    assert_eq!(found.map(|data| data.record), Err(AvccError::NotFound));
    let found = generate_private_data(&stream(&[&SEQUENCE_SET, &SLICE, &PICTURE_SET, &SLICE]));
    assert_eq!(found.map(|data| data.record), Ok(expected_record()));
}

#[test]
fn sets_that_cannot_be_read_are_passed_over() {
    let broken = [0x67, 0x64, 0x00];
    let found = generate_private_data(&stream(&[&SEQUENCE_SET, &broken, &PICTURE_SET, &[0x68], &SLICE]));
    assert_eq!(found.map(|data| data.record), Ok(expected_record()));
}

#[test]
fn nothing_is_found_in_an_empty_stream() {
    assert_eq!(generate_private_data(&[]).map(|data| data.record), Err(AvccError::NotFound));
    let noise = generate_private_data(&[1, 2, 3, 4, 5]);
    assert_eq!(noise.map(|data| data.record), Err(AvccError::NotFound));
}

fn profile() -> Profile {
    Profile { profile: 66, constraints: 0xc0, level: 30 }
}

#[test]
fn record_is_laid_out_byte_by_byte() {
    let record = configuration_record(profile(), &[0x67, 1], &[0x68]);
    assert_eq!(record, vec![1, 66, 0xc0, 30, 0xff, 0xe1, 0, 2, 0x67, 1, 1, 0, 2, 0x68, 0]);
}

#[test]
fn lengths_have_to_fit_the_record() {
    let mut sets = ParameterSets::new();
    assert_eq!(sets.record(), Err(AvccError::NotFound));
    sets.keep_sequence(&vec![0x67; 65_536], Some(profile()));
    assert_eq!(sets.record(), Err(AvccError::NotFound));
    sets.keep_picture(&[0x68], true);
    assert_eq!(sets.record(), Err(AvccError::SequenceSetTooLong));
    sets.keep_sequence(&vec![0x67; 65_535], None);
    assert_eq!(sets.record(), Err(AvccError::SequenceSetTooLong));
    sets.keep_sequence(&vec![0x67; 65_535], Some(profile()));
    assert_eq!(sets.record().map(|record| record.len()), Ok(65_535 + 13));
    sets.keep_picture(&vec![0x68; 65_536], true);
    assert_eq!(sets.record(), Err(AvccError::PictureSetTooLong));
    sets.keep_picture(&vec![0x68; 65_535], true);
    assert_eq!(sets.record(), Err(AvccError::PictureSetAtLimit));
    sets.keep_picture(&vec![0x68; 65_534], false);
    assert_eq!(sets.record(), Err(AvccError::PictureSetAtLimit));
    sets.keep_picture(&vec![0x68; 65_534], true);
    assert_eq!(sets.record().map(|record| record.len()), Ok(65_535 + 65_534 + 12));
}

#[test]
fn reports_are_searched_for_parameter_sets() {
    let reports = vec![
        NalReport { complete: true, head: SEQUENCE_SET.to_vec() },
        NalReport { complete: false, head: PICTURE_SET.to_vec() },
    ];
    let sets = find_parameter_sets(&reports);
    assert!(sets.picture.is_none());
    let (unit, found) = sets.sequence.unwrap();
    assert_eq!(unit, SEQUENCE_SET.to_vec());
    assert_eq!(found, Profile { profile: 0x64, constraints: 0, level: 0x0a });
}

#[test]
fn units_have_types() {
    assert_eq!(unit_type(0x67), Some(7));
    assert_eq!(unit_type(0x68), Some(8));
    assert_eq!(unit_type(0x7f), Some(31));
    assert_eq!(unit_type(0x80), None);
    assert_eq!(unit_type(0xe7), None);
}

#[test]
fn only_whole_units_are_laid_out() {
    let reports = vec![
        NalReport { complete: true, head: vec![0x41, 9] },
        NalReport { complete: true, head: vec![] },
        NalReport { complete: false, head: vec![0x41, 8] },
        NalReport { complete: true, head: vec![0x81] },
    ];
    assert_eq!(prefix_lengths(&reports), vec![0, 0, 0, 2, 0x41, 9]);
    let long = vec![NalReport { complete: true, head: vec![0x41; 0x0102_03] }];
    assert_eq!(prefix_lengths(&long)[..5], [0x00, 0x01, 0x02, 0x03, 0x41]);
}
