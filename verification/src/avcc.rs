//! The "codec private" data that has to stand in front of H.264 video in a Matroska container: a
//! decoder configuration record, made from the parameter sets that the encoder writes into its
//! stream.
use crate::annexb::{self, NalReport};
use crate::ebml;
use h264_reader::nal::Nal;
use vstd::prelude::*;

verus! {

/// The type of a unit that holds a sequence parameter set.
pub const SEQUENCE_SET: u8 = 7;

/// The type of a unit that holds a picture parameter set.
pub const PICTURE_SET: u8 = 8;

/// What the configuration record repeats from the sequence parameter set.
#[derive(Clone, Copy, Debug, PartialEq, Eq, Structural)]
pub struct Profile {
    /// `profile_idc`.
    pub profile: u8,
    /// The constraint flags.
    pub constraints: u8,
    /// `level_idc`.
    pub level: u8,
}

/// Why there is no private data.
#[derive(Clone, Copy, Debug, PartialEq, Eq, Structural)]
pub enum AvccError {
    /// The stream does not hold both parameter sets.
    NotFound,
    /// The length of the sequence parameter set does not fit the record.
    SequenceSetTooLong,
    /// The length of the picture parameter set does not fit the record.
    PictureSetTooLong,
    /// The length of the picture parameter set fits, but not with the byte that is written after it.
    PictureSetAtLimit,
}

/// The private data.
#[derive(Debug)]
pub struct PrivateData {
    /// The configuration record.
    pub record: Vec<u8>,
    /// The profile that is found when the record is read back; none where it cannot be read.
    pub profile: Option<u8>,
}

/// The configuration record, where there is private data.
pub open spec fn record_of(data: Option<PrivateData>) -> Option<Seq<u8>> {
    match data {
        Some(data) => Some(data.record@),
        None => None,
    }
}

/// The configuration record for one parameter set of each sort: version 1, the profile, lengths of
/// units in four bytes, one sequence parameter set, and one picture parameter set with a zero
/// behind it.
pub open spec fn configuration(profile: Profile, sequence_set: Seq<u8>, picture_set: Seq<u8>) -> Seq<u8> {
    seq![1u8, profile.profile, profile.constraints, profile.level, 0xff, 0xe1]
        + ebml::be_bytes(sequence_set.len(), 2) + sequence_set + seq![1u8] + ebml::be_bytes(
        picture_set.len() + 1,
        2,
    ) + picture_set + seq![0u8]
}

/// What `SeqParameterSet::from_bits` finds in a unit; none where it refuses the unit.
pub uninterp spec fn parsed_sequence_set(unit: Seq<u8>) -> Option<Profile>;

/// Does `PicParameterSet::from_bits` take a unit, where the sequence parameter set in `sequence_set`
/// is known?
pub uninterp spec fn picture_set_parses(sequence_set: Seq<u8>, unit: Seq<u8>) -> bool;

/// Is this a configuration record with lengths that fit their two bytes?
pub open spec fn is_configuration(record: Seq<u8>) -> bool {
    exists|profile: Profile, sequence_set: Seq<u8>, picture_set: Seq<u8>|
        {
            &&& record == #[trigger] configuration(profile, sequence_set, picture_set)
            &&& sequence_set.len() <= u16::MAX
            &&& picture_set.len() < u16::MAX
        }
}

/// `h264_reader::nal::sps::SeqParameterSet::from_bits`, on a whole unit: the first three fields of the
/// parameter set. They are the three bytes behind the header, unless one of those is there only to
/// keep the unit from looking like a start code.
#[verifier::external_body]
fn parse_sequence_set(unit: &[u8]) -> (found: Option<Profile>)
    requires
        unit@.len() > 0,
    ensures
        found == parsed_sequence_set(unit@),
        found is Some ==> unit@.len() > 4,
        found is Some && !(unit@[1] == 0 && unit@[2] == 0 && unit@[3] == 3) ==> found == Some(
            Profile { profile: unit@[1], constraints: unit@[2], level: unit@[3] },
        ),
{
    let nal = h264_reader::nal::RefNal::new(unit, &[], true);
    let parsed = h264_reader::nal::sps::SeqParameterSet::from_bits(nal.rbsp_bits());
    parsed.ok().map(
        |set| Profile {
            profile: set.profile_idc.into(),
            constraints: set.constraint_flags.into(),
            level: set.level_idc,
        },
    )
}

/// `h264_reader::nal::pps::PicParameterSet::from_bits`, on a whole unit, in a context that holds the
/// sequence parameter set of another: does it take the unit? The context holds nothing where
/// `SeqParameterSet::from_bits` does not take `sequence_set`.
#[verifier::external_body]
fn parse_picture_set(sequence_set: &[u8], unit: &[u8]) -> (taken: bool)
    requires
        sequence_set@.len() > 0,
        unit@.len() > 0,
    ensures
        taken == picture_set_parses(sequence_set@, unit@),
{
    let mut context = h264_reader::Context::default();
    let nal = h264_reader::nal::RefNal::new(sequence_set, &[], true);
    let parsed = h264_reader::nal::sps::SeqParameterSet::from_bits(nal.rbsp_bits());
    if let Ok(set) = parsed {
        context.put_seq_param_set(set);
    }
    let nal = h264_reader::nal::RefNal::new(unit, &[], true);
    h264_reader::nal::pps::PicParameterSet::from_bits(&context, nal.rbsp_bits()).is_ok()
}

/// `h264_reader::avcc::AvcDecoderConfigurationRecord::try_from` and `avc_profile_indication`, on a record that is
/// laid out as in [`configuration`]: the record is taken, and the profile in it is its second byte.
#[verifier::external_body]
fn read_profile(record: &[u8]) -> (found: Option<u8>)
    requires
        is_configuration(record@),
    ensures
        found == Some(record@[1]),
{
    let parsed = h264_reader::avcc::AvcDecoderConfigurationRecord::try_from(record);
    parsed.ok().map(|record| record.avc_profile_indication().into())
}

/// The parameter sets that have been found so far.
pub struct ParameterSets {
    /// The last sequence parameter set that could be read: its unit, and what the record repeats.
    pub sequence: Option<(Vec<u8>, Profile)>,
    /// The last picture parameter set that could be read.
    pub picture: Option<Vec<u8>>,
}

/// The parameter sets of a [`ParameterSets`], over mathematical values.
#[verifier::ext_equal]
pub struct SetsView {
    pub sequence: Option<(Seq<u8>, Profile)>,
    pub picture: Option<Seq<u8>>,
}

impl View for ParameterSets {
    type V = SetsView;

    open spec fn view(&self) -> SetsView {
        SetsView {
            sequence: match self.sequence {
                Some((unit, profile)) => Some((unit@, profile)),
                None => None,
            },
            picture: match self.picture {
                Some(unit) => Some(unit@),
                None => None,
            },
        }
    }
}

impl SetsView {
    /// Before anything has been found.
    pub open spec fn empty() -> SetsView {
        SetsView { sequence: None, picture: None }
    }

    /// After a unit with a sequence parameter set, from which `parsed` could be read.
    pub open spec fn with_sequence(self, unit: Seq<u8>, parsed: Option<Profile>) -> SetsView {
        match parsed {
            Some(profile) => SetsView { sequence: Some((unit, profile)), ..self },
            None => self,
        }
    }

    /// After a unit with a picture parameter set, which could be read where `taken` holds.
    pub open spec fn with_picture(self, unit: Seq<u8>, taken: bool) -> SetsView {
        if taken {
            SetsView { picture: Some(unit), ..self }
        } else {
            self
        }
    }

    /// After a report: only whole units with parameter sets matter. A picture parameter set can only
    /// be read where the sequence parameter set that it belongs to came before it.
    pub open spec fn after(self, report: (bool, Seq<u8>)) -> SetsView {
        let (_, unit) = report;
        if !annexb::whole(report) {
            self
        } else if annexb::type_of(unit[0]) == Some(SEQUENCE_SET) {
            self.with_sequence(unit, parsed_sequence_set(unit))
        } else if annexb::type_of(unit[0]) == Some(PICTURE_SET) {
            self.with_picture(
                unit,
                self.sequence matches Some((sequence_set, _)) && picture_set_parses(sequence_set, unit),
            )
        } else {
            self
        }
    }

    /// After some reports in turn.
    pub open spec fn after_all(self, reports: Seq<(bool, Seq<u8>)>) -> SetsView
        decreases reports.len(),
    {
        if reports.len() == 0 {
            self
        } else {
            self.after_all(reports.drop_last()).after(reports.last())
        }
    }

    /// Do the sets that were found come from units that are not empty?
    pub open spec fn wf(self) -> bool {
        self.sequence matches Some((unit, _)) ==> unit.len() > 0
    }

    /// The record, or why there is none.
    pub open spec fn record(self) -> Result<Seq<u8>, AvccError> {
        match (self.sequence, self.picture) {
            (Some((sequence_set, profile)), Some(picture_set)) => {
                if sequence_set.len() > u16::MAX {
                    Err(AvccError::SequenceSetTooLong)
                } else if picture_set.len() > u16::MAX {
                    Err(AvccError::PictureSetTooLong)
                } else if picture_set.len() == u16::MAX {
                    Err(AvccError::PictureSetAtLimit)
                } else {
                    Ok(configuration(profile, sequence_set, picture_set))
                }
            },
            _ => Err(AvccError::NotFound),
        }
    }
}

/// A record is never longer than this.
pub const RECORD_LIMIT: usize = 131_081;

/// How long a record can be.
pub proof fn lemma_record_len(sets: SetsView)
    ensures
        sets.record() matches Ok(record) ==> record.len() <= RECORD_LIMIT,
{
    if let (Some((sequence_set, _)), Some(picture_set)) = (sets.sequence, sets.picture) {
        ebml::lemma_be_bytes_len(sequence_set.len(), 2);
        ebml::lemma_be_bytes_len(picture_set.len() + 1, 2);
    }
}

/// The configuration record for one parameter set of each sort.
pub fn configuration_record(profile: Profile, sequence_set: &[u8], picture_set: &[u8]) -> (record: Vec<u8>)
    requires
        sequence_set@.len() <= u16::MAX,
        picture_set@.len() < u16::MAX,
    ensures
        record@ == configuration(profile, sequence_set@, picture_set@),
{
    let mut record: Vec<u8> = vec![1, profile.profile, profile.constraints, profile.level, 0xff, 0xe1];
    let length = ebml::u16_bytes(sequence_set.len() as u16);
    record.extend_from_slice(length.as_slice());
    record.extend_from_slice(sequence_set);
    record.push(1);
    let length = ebml::u16_bytes((picture_set.len() + 1) as u16);
    record.extend_from_slice(length.as_slice());
    record.extend_from_slice(picture_set);
    record.push(0);
    proof {
        assert(record@ =~= configuration(profile, sequence_set@, picture_set@));
    }
    record
}

impl ParameterSets {
    /// Nothing has been found yet.
    pub fn new() -> (sets: ParameterSets)
        ensures
            sets@ == SetsView::empty(),
    {
        ParameterSets { sequence: None, picture: None }
    }

    /// Takes note of a unit with a sequence parameter set, from which `parsed` could be read.
    pub fn keep_sequence(&mut self, unit: &[u8], parsed: Option<Profile>)
        ensures
            final(self)@ == old(self)@.with_sequence(unit@, parsed),
    {
        if let Some(profile) = parsed {
            self.sequence = Some((vstd::slice::slice_to_vec(unit), profile));
        }
    }

    /// Takes note of a unit with a picture parameter set, which could be read where `taken` holds.
    pub fn keep_picture(&mut self, unit: &[u8], taken: bool)
        ensures
            final(self)@ == old(self)@.with_picture(unit@, taken),
    {
        if taken {
            self.picture = Some(vstd::slice::slice_to_vec(unit));
        }
    }

    /// Looks for parameter sets in one report.
    pub fn observe(&mut self, report: &NalReport)
        requires
            old(self)@.wf(),
        ensures
            final(self)@ == old(self)@.after(report@),
            final(self)@.wf(),
    {
        match report.whole_type() {
            Some(SEQUENCE_SET) => {
                let unit = report.head.as_slice();
                let parsed = parse_sequence_set(unit);
                self.keep_sequence(unit, parsed);
            },
            Some(PICTURE_SET) => {
                let unit = report.head.as_slice();
                let taken = match &self.sequence {
                    Some((sequence_set, _)) => parse_picture_set(sequence_set.as_slice(), unit),
                    None => false,
                };
                self.keep_picture(unit, taken);
            },
            _ => {},
        }
    }

    /// The record, where both sets have been found and their lengths fit.
    pub fn record(&self) -> (made: Result<Vec<u8>, AvccError>)
        ensures
            match made {
                Ok(record) => self@.record() == Ok::<Seq<u8>, AvccError>(record@),
                Err(error) => self@.record() == Err::<Seq<u8>, AvccError>(error),
            },
    {
        match (&self.sequence, &self.picture) {
            (Some((sequence_set, profile)), Some(picture_set)) => {
                if sequence_set.len() > 0xffff {
                    Err(AvccError::SequenceSetTooLong)
                } else if picture_set.len() > 0xffff {
                    Err(AvccError::PictureSetTooLong)
                } else if picture_set.len() == 0xffff {
                    Err(AvccError::PictureSetAtLimit)
                } else {
                    Ok(configuration_record(*profile, sequence_set.as_slice(), picture_set.as_slice()))
                }
            },
            _ => Err(AvccError::NotFound),
        }
    }
}

/// The parameter sets in some reports.
pub fn find_parameter_sets(reports: &Vec<NalReport>) -> (sets: ParameterSets)
    ensures
        sets@ == SetsView::empty().after_all(annexb::report_views(reports@)),
{
    let mut sets = ParameterSets::new();
    let mut i: usize = 0;
    let ghost views = annexb::report_views(reports@);
    proof {
        assert(views.take(0) =~= seq![]);
    }
    while i < reports.len()
        invariant
            i <= reports.len(),
            views == annexb::report_views(reports@),
            sets@.wf(),
            sets@ == SetsView::empty().after_all(views.take(i as int)),
        decreases reports.len() - i,
    {
        proof {
            assert(views.take(i + 1).drop_last() =~= views.take(i as int));
            assert(views.take(i + 1).last() == reports@[i as int]@);
        }
        sets.observe(&reports[i]);
        i += 1;
    }
    proof {
        assert(views.take(i as int) =~= views);
    }
    sets
}

/// The parameter sets in the first frame of an encoded stream. The last unit of the frame is not
/// looked at: it is not known to be complete.
pub open spec fn found_sets(bitstream: Seq<u8>) -> SetsView {
    SetsView::empty().after_all(annexb::pushed_reports(bitstream))
}

/// The private data that goes in front of an encoded stream, made from the stream's first frame.
pub fn generate_private_data(bitstream: &[u8]) -> (made: Result<PrivateData, AvccError>)
    ensures
        match found_sets(bitstream@).record() {
            Ok(record) => {
                &&& made matches Ok(data)
                &&& data.record@ == record
                &&& data.profile == Some(record[1])
            },
            Err(error) => made == Err::<PrivateData, AvccError>(error),
        },
        forall|units: Seq<(bool, Seq<u8>)>|
            bitstream@ == #[trigger] annexb::byte_stream(units) && annexb::all_framable(units)
                ==> annexb::pushed_reports(bitstream@) == annexb::open_reports(units),
{
    let reports = annexb::read_open(bitstream);
    let sets = find_parameter_sets(&reports);
    let record = sets.record()?;
    let profile = read_profile(record.as_slice());
    Ok(PrivateData { record, profile })
}

/// The number that two bytes stand for, the more significant first.
pub open spec fn two_bytes(bytes: Seq<u8>) -> nat {
    (bytes[0] * 256 + bytes[1]) as nat
}

/// A configuration record can be read back: behind six bytes stands the length of the sequence parameter
/// set, then the set; behind one more byte the length of the picture parameter set and of the zero behind
/// it, then these two, and nothing more.
pub proof fn law_configuration_reads_back(profile: Profile, sequence_set: Seq<u8>, picture_set: Seq<u8>)
    requires
        sequence_set.len() <= u16::MAX,
        picture_set.len() < u16::MAX,
    ensures
        ({
            let record = configuration(profile, sequence_set, picture_set);
            let end = 8 + sequence_set.len() as int;
            &&& two_bytes(record.subrange(6, 8)) == sequence_set.len()
            &&& record.subrange(8, end) == sequence_set
            &&& record[end] == 1
            &&& two_bytes(record.subrange(end + 1, end + 3)) == picture_set.len() + 1
            &&& record.skip(end + 3) == picture_set.push(0)
        }),
{
    let record = configuration(profile, sequence_set, picture_set);
    let end = 8 + sequence_set.len() as int;
    ebml::lemma_be_bytes_2(sequence_set.len());
    ebml::lemma_be_bytes_2(picture_set.len() + 1);
    assert(record.subrange(6, 8) =~= ebml::be_bytes(sequence_set.len(), 2));
    assert(record.subrange(8, end) =~= sequence_set);
    assert(record.subrange(end + 1, end + 3) =~= ebml::be_bytes(picture_set.len() + 1, 2));
    assert(record.skip(end + 3) =~= picture_set.push(0));
}

/// A configuration record says, byte by byte, what it is made of: the version, the three bytes of the profile,
/// that lengths of units take four bytes and that there is one sequence parameter set; then the two sets, each
/// behind its length, the first byte of which is the more significant.
pub proof fn law_record_layout(profile: Profile, sequence_set: &[u8], picture_set: &[u8], record: Vec<u8>)
    requires
        sequence_set@.len() < 0x1_0000,
        picture_set@.len() < 0xffff,
        call_ensures(configuration_record, (profile, sequence_set, picture_set), record),
    ensures
        ({
            let end = 8 + sequence_set@.len() as int;
            &&& record@.len() == 12 + sequence_set@.len() + picture_set@.len()
            &&& record@[0] == 1
            &&& record@[1] == profile.profile
            &&& record@[2] == profile.constraints
            &&& record@[3] == profile.level
            &&& record@[4] == 0xff
            &&& record@[5] == 0xe1
            &&& record@[6] * 256 + record@[7] == sequence_set@.len()
            &&& forall|i: int| 0 <= i < sequence_set@.len() ==> record@[8 + i] == #[trigger] sequence_set@[i]
            &&& record@[end] == 1
            &&& record@[end + 1] * 256 + record@[end + 2] == picture_set@.len() + 1
            &&& forall|i: int| 0 <= i < picture_set@.len() ==> record@[end + 3 + i] == #[trigger] picture_set@[i]
            &&& record@.last() == 0
        }),
{
    let end = 8 + sequence_set@.len() as int;
    ebml::lemma_be_bytes_2(sequence_set@.len());
    ebml::lemma_be_bytes_2(picture_set@.len() + 1);
    let (n, m) = (sequence_set@.len() as int, picture_set@.len() + 1);
    assert(record@[6] == n / 0x100 && record@[7] == n % 0x100);
    assert(n / 0x100 * 256 + n % 0x100 == n);
    assert(record@[end + 1] == m / 0x100 && record@[end + 2] == m % 0x100);
    assert(m / 0x100 * 256 + m % 0x100 == m);
}

/// Where the profile is what stands behind the header of the sequence parameter set, the record repeats these
/// three bytes of the set, so that a reader finds the same twice.
pub proof fn law_record_repeats_the_set(profile: Profile, sequence_set: &[u8], picture_set: &[u8], record: Vec<u8>)
    requires
        3 < sequence_set@.len() < 0x1_0000,
        picture_set@.len() < 0xffff,
        profile.profile == sequence_set@[1],
        profile.constraints == sequence_set@[2],
        profile.level == sequence_set@[3],
        call_ensures(configuration_record, (profile, sequence_set, picture_set), record),
    ensures
        record@.subrange(1, 4) == sequence_set@.subrange(1, 4),
        record@.subrange(9, 12) == sequence_set@.subrange(1, 4),
{
    law_record_layout(profile, sequence_set, picture_set, record);
    assert(record@[9] == sequence_set@[1]);
    assert(record@[10] == sequence_set@[2]);
    assert(record@[11] == sequence_set@[3]);
    assert(record@.subrange(1, 4) =~= sequence_set@.subrange(1, 4));
    assert(record@.subrange(9, 12) =~= sequence_set@.subrange(1, 4));
}

/// There is a record just where both sets have been found and their lengths fit, the second one with a byte to
/// spare; else it is said what is missing.
pub proof fn law_record_is_owed(sets: ParameterSets, made: Result<Vec<u8>, AvccError>)
    requires
        call_ensures(ParameterSets::record, (&sets,), made),
    ensures
        match (sets.sequence, sets.picture) {
            (Some((sequence_set, profile)), Some(picture_set)) => {
                &&& sequence_set@.len() >= 0x1_0000 ==> made == Err::<Vec<u8>, AvccError>(
                    AvccError::SequenceSetTooLong,
                )
                &&& sequence_set@.len() < 0x1_0000 && picture_set@.len() >= 0x1_0000 ==> made == Err::<
                    Vec<u8>,
                    AvccError,
                >(AvccError::PictureSetTooLong)
                &&& sequence_set@.len() < 0x1_0000 && picture_set@.len() == 0xffff ==> made == Err::<
                    Vec<u8>,
                    AvccError,
                >(AvccError::PictureSetAtLimit)
                &&& sequence_set@.len() < 0x1_0000 && picture_set@.len() < 0xffff ==> (made matches Ok(record) && {
                    let end = 8 + sequence_set@.len() as int;
                    &&& record@.len() == 12 + sequence_set@.len() + picture_set@.len()
                    &&& record@.take(6) == seq![
                        1u8,
                        profile.profile,
                        profile.constraints,
                        profile.level,
                        0xff,
                        0xe1,
                    ]
                    &&& record@[6] * 256 + record@[7] == sequence_set@.len()
                    &&& record@.subrange(8, end) == sequence_set@
                    &&& record@[end] == 1
                    &&& record@[end + 1] * 256 + record@[end + 2] == picture_set@.len() + 1
                    &&& record@.skip(end + 3) == picture_set@.push(0)
                })
            },
            _ => made == Err::<Vec<u8>, AvccError>(AvccError::NotFound),
        },
{
    if let (Some((sequence_set, profile)), Some(picture_set)) = (sets.sequence, sets.picture) {
        if sequence_set@.len() < 0x1_0000 && picture_set@.len() < 0xffff {
            lemma_record_says(profile, sequence_set@, picture_set@);
        }
    }
}

/// Does this report a whole unit of a type, which the low five bits of its first byte tell?
pub open spec fn reports_type(report: NalReport, sort: u8) -> bool {
    &&& report.complete
    &&& report.head@.len() > 0
    &&& report.head@[0] < 0x80
    &&& report.head@[0] % 32 == sort
}

/// Are these the same sets?
pub open spec fn same_sets(one: ParameterSets, other: ParameterSets) -> bool {
    same_sequence(one, other) && same_picture(one, other)
}

/// Do these have the same sequence parameter set?
pub open spec fn same_sequence(one: ParameterSets, other: ParameterSets) -> bool {
    match (one.sequence, other.sequence) {
        (Some((unit, profile)), Some((other_unit, other_profile))) => unit@ == other_unit@ && profile
            == other_profile,
        (None, None) => true,
        _ => false,
    }
}

/// Do these have the same picture parameter set?
pub open spec fn same_picture(one: ParameterSets, other: ParameterSets) -> bool {
    match (one.picture, other.picture) {
        (Some(unit), Some(other_unit)) => unit@ == other_unit@,
        (None, None) => true,
        _ => false,
    }
}

/// Is `after` what is known when `before` was known, and one more report has come? A unit of type 7 that can be
/// read becomes the sequence parameter set; one of type 8 that can be read with the sequence parameter set
/// that is known becomes the picture parameter set; nothing else matters.
pub open spec fn learns(before: ParameterSets, report: NalReport, after: ParameterSets) -> bool {
    let unit = report.head@;
    &&& reports_type(report, 7) ==> same_picture(before, after) && match parsed_sequence_set(unit) {
        Some(found) => after.sequence matches Some((kept, profile)) && kept@ == unit && profile == found,
        None => same_sequence(before, after),
    }
    &&& reports_type(report, 8) ==> same_sequence(before, after) && if before.sequence matches Some((known, _))
        && picture_set_parses(known@, unit) {
        after.picture matches Some(kept) && kept@ == unit
    } else {
        same_picture(before, after)
    }
    &&& !reports_type(report, 7) && !reports_type(report, 8) ==> same_sets(before, after)
}

/// Without reports nothing is known, and each report is learned from in turn.
pub proof fn law_reports_are_learned(
    reports: Vec<NalReport>,
    more: Vec<NalReport>,
    before: ParameterSets,
    after: ParameterSets,
)
    requires
        call_ensures(find_parameter_sets, (&reports,), before),
        call_ensures(find_parameter_sets, (&more,), after),
        more@.len() > 0,
        reports@ == more@.drop_last(),
    ensures
        reports@.len() == 0 ==> before.sequence is None && before.picture is None,
        learns(before, more@.last(), after),
{
    let views = annexb::report_views(more@);
    assert(views.drop_last() =~= annexb::report_views(reports@));
    assert(views.last() == more@.last()@);
    assert(annexb::report_views(reports@).len() == reports@.len());
    lemma_learns(before, more@.last(), after);
}

/// What is kept of a report, over executable values.
proof fn lemma_learns(before: ParameterSets, report: NalReport, after: ParameterSets)
    requires
        after@ == before@.after(report@),
    ensures
        learns(before, report, after),
{
}

/// One report is learned from.
pub proof fn law_report_is_learned(before: ParameterSets, report: NalReport, after: ParameterSets)
    requires
        exists|sets: &mut ParameterSets|
            *sets == before && *final(sets) == after && #[trigger] call_ensures(
                ParameterSets::observe,
                (sets, &report),
                (),
            ),
    ensures
        learns(before, report, after),
{
    lemma_learns(before, report, after);
}

/// The first frame of a stream, which begins with a sequence parameter set and a picture parameter set that goes
/// with it and holds no others, has private data: the record of these two sets, with the profile that the first
/// one tells.
pub proof fn law_private_data(
    bitstream: &[u8],
    units: Seq<(bool, Seq<u8>)>,
    profile: Profile,
    made: Result<PrivateData, AvccError>,
)
    requires
        call_ensures(generate_private_data, (bitstream,), made),
        bitstream@ == annexb::byte_stream(units),
        annexb::all_framable(units),
        units.len() > 2,
        units[0].1[0] < 0x80,
        units[0].1[0] % 32 == 7,
        units[0].1.len() < 0x1_0000,
        parsed_sequence_set(units[0].1) == Some(profile),
        units[1].1[0] < 0x80,
        units[1].1[0] % 32 == 8,
        units[1].1.len() < 0xffff,
        picture_set_parses(units[0].1, units[1].1),
        forall|i: int|
            2 <= i < units.len() ==> (#[trigger] units[i]).1[0] >= 0x80 || units[i].1[0] % 32 != 7
                && units[i].1[0] % 32 != 8,
    ensures
        made matches Ok(data) && {
            let (sequence_set, picture_set) = (units[0].1, units[1].1);
            let record = data.record@;
            let end = 8 + sequence_set.len() as int;
            &&& data.profile == Some(profile.profile)
            &&& record.len() == 12 + sequence_set.len() + picture_set.len()
            &&& record.take(6) == seq![1u8, profile.profile, profile.constraints, profile.level, 0xff, 0xe1]
            &&& record[6] * 256 + record[7] == sequence_set.len()
            &&& record.subrange(8, end) == sequence_set
            &&& record[end] == 1
            &&& record[end + 1] * 256 + record[end + 2] == picture_set.len() + 1
            &&& record.skip(end + 3) == picture_set.push(0)
        },
{
    assert forall|i: int| 2 <= i < units.len() implies !is_parameter_set((#[trigger] units[i]).1) by {
        assert(annexb::framable(units[i].1));
    }
    assert(annexb::pushed_reports(bitstream@) == annexb::open_reports(units));
    law_sets_are_found(units, profile);
    lemma_record_says(profile, units[0].1, units[1].1);
}

/// A configuration record, byte by byte.
#[verifier::spinoff_prover]
proof fn lemma_record_says(profile: Profile, sequence_set: Seq<u8>, picture_set: Seq<u8>)
    requires
        sequence_set.len() <= u16::MAX,
        picture_set.len() < u16::MAX,
    ensures
        ({
            let record = configuration(profile, sequence_set, picture_set);
            let end = 8 + sequence_set.len() as int;
            &&& record.len() == 12 + sequence_set.len() + picture_set.len()
            &&& record.take(6) == seq![1u8, profile.profile, profile.constraints, profile.level, 0xff, 0xe1]
            &&& record[1] == profile.profile
            &&& record[6] * 256 + record[7] == sequence_set.len()
            &&& record.subrange(8, end) == sequence_set
            &&& record[end] == 1
            &&& record[end + 1] * 256 + record[end + 2] == picture_set.len() + 1
            &&& record.skip(end + 3) == picture_set.push(0)
        }),
{
    let record = configuration(profile, sequence_set, picture_set);
    let end = 8 + sequence_set.len() as int;
    ebml::lemma_be_bytes_2(sequence_set.len());
    ebml::lemma_be_bytes_2(picture_set.len() + 1);
    let (n, m) = (sequence_set.len() as int, picture_set.len() + 1);
    assert(record[6] == n / 0x100 && record[7] == n % 0x100);
    assert(n / 0x100 * 256 + n % 0x100 == n);
    assert(record[end + 1] == m / 0x100 && record[end + 2] == m % 0x100);
    assert(m / 0x100 * 256 + m % 0x100 == m);
    assert(record.take(6) =~= seq![1u8, profile.profile, profile.constraints, profile.level, 0xff, 0xe1]);
    assert(record.subrange(8, end) =~= sequence_set);
    assert(record.skip(end + 3) =~= picture_set.push(0));
}

/// Is this a unit with a parameter set?
pub open spec fn is_parameter_set(unit: Seq<u8>) -> bool {
    annexb::type_of(unit[0]) == Some(SEQUENCE_SET) || annexb::type_of(unit[0]) == Some(PICTURE_SET)
}

/// Units without parameter sets change nothing of what has been found.
proof fn lemma_no_sets(sets: SetsView, reports: Seq<(bool, Seq<u8>)>, n: int)
    requires
        0 <= n <= reports.len(),
        forall|i: int|
            n <= i < reports.len() ==> !annexb::whole(#[trigger] reports[i]) || !is_parameter_set(reports[i].1),
    ensures
        sets.after_all(reports) == sets.after_all(reports.take(n)),
    decreases reports.len(),
{
    if n < reports.len() {
        let last = reports.len() - 1;
        assert(reports.last() == reports[last]);
        let rest = reports.drop_last();
        assert forall|i: int| n <= i < rest.len() implies !annexb::whole(#[trigger] rest[i])
            || !is_parameter_set(rest[i].1) by {
            assert(rest[i] == reports[i]);
        }
        lemma_no_sets(sets, rest, n);
        assert(rest.take(n) =~= reports.take(n));
    } else {
        assert(reports.take(n) =~= reports);
    }
}

/// A frame that begins with a sequence parameter set and a picture parameter set that goes with it, and goes
/// on with other units, has private data that is made from these two.
pub proof fn law_sets_are_found(units: Seq<(bool, Seq<u8>)>, profile: Profile)
    requires
        units.len() > 2,
        annexb::all_framable(units),
        annexb::type_of(units[0].1[0]) == Some(SEQUENCE_SET),
        parsed_sequence_set(units[0].1) == Some(profile),
        annexb::type_of(units[1].1[0]) == Some(PICTURE_SET),
        picture_set_parses(units[0].1, units[1].1),
        forall|i: int| 2 <= i < units.len() ==> !is_parameter_set((#[trigger] units[i]).1),
    ensures
        SetsView::empty().after_all(annexb::open_reports(units)) == (SetsView {
            sequence: Some((units[0].1, profile)),
            picture: Some(units[1].1),
        }),
{
    let reports = annexb::open_reports(units);
    assert(annexb::framable(units[0].1));
    assert(annexb::framable(units[1].1));
    lemma_no_sets(SetsView::empty(), reports, 2);
    let two = reports.take(2);
    assert(two.drop_last() =~= seq![reports[0]]);
    assert(two.drop_last().drop_last() =~= seq![]);
    let none = SetsView::empty();
    assert(none.after_all(seq![]) == none);
    assert(none.after_all(seq![reports[0]]) == none.after(reports[0])) by {
        assert(seq![reports[0]].drop_last() =~= seq![]);
    }
    assert(none.after_all(two) == none.after(reports[0]).after(reports[1]));
}

/// At first no set is known. A sequence parameter set is kept just where it could be read, and a picture parameter set
/// just where it was taken; the other one stays.
pub proof fn law_sets_are_kept(
    new: ParameterSets,
    before: ParameterSets,
    unit: &[u8],
    parsed: Option<Profile>,
    with_sequence: ParameterSets,
    taken: bool,
    with_picture: ParameterSets,
)
    requires
        call_ensures(ParameterSets::new, (), new),
        exists|sets: &mut ParameterSets|
            *sets == before && *final(sets) == with_sequence && #[trigger] call_ensures(
                ParameterSets::keep_sequence,
                (sets, unit, parsed),
                (),
            ),
        exists|sets: &mut ParameterSets|
            *sets == before && *final(sets) == with_picture && #[trigger] call_ensures(
                ParameterSets::keep_picture,
                (sets, unit, taken),
                (),
            ),
    ensures
        new.sequence is None && new.picture is None,
        same_picture(before, with_sequence),
        match parsed {
            Some(found) => with_sequence.sequence matches Some((kept, profile)) && kept@ == unit@ && profile == found,
            None => same_sequence(before, with_sequence),
        },
        same_sequence(before, with_picture),
        taken ==> (with_picture.picture matches Some(kept) && kept@ == unit@),
        !taken ==> same_picture(before, with_picture),
{
}

} // verus!
