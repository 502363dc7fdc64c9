//! H.264 as the encoder hands it out: a byte stream of NAL units, each behind a start code.
use h264_reader::nal::Nal;
use std::io::BufRead;
use vstd::prelude::*;

verus! {

/// What the splitter reports while it reads a byte stream: a unit, as far as it has come.
pub struct NalReport {
    /// Has the unit come to its end?
    pub complete: bool,
    /// The bytes of the unit that lie next to each other, from its header on.
    pub head: Vec<u8>,
}

impl View for NalReport {
    type V = (bool, Seq<u8>);

    open spec fn view(&self) -> (bool, Seq<u8>) {
        (self.complete, self.head@)
    }
}

/// What a list of reports says.
pub open spec fn report_views(reports: Seq<NalReport>) -> Seq<(bool, Seq<u8>)> {
    reports.map_values(|report: NalReport| report@)
}

/// Takes note of one report.
fn note(reports: &mut Vec<NalReport>, complete: bool, head: &[u8])
    ensures
        report_views(final(reports)@) == report_views(old(reports)@).push((complete, head@)),
{
    let report = NalReport { complete, head: vstd::slice::slice_to_vec(head) };
    reports.push(report);
    assert(report_views(reports@) =~= report_views(old(reports)@).push((complete, head@)));
}

/// The start code in front of a unit: three bytes, or four where it is a long one.
pub open spec fn start_code(long: bool) -> Seq<u8> {
    if long {
        seq![0u8, 0, 0, 1]
    } else {
        seq![0u8, 0, 1]
    }
}

/// Can `unit` stand in a byte stream as it is? It is not empty, does not end in a zero, and holds
/// nothing that looks like a start code or the zeros in front of one.
pub open spec fn framable(unit: Seq<u8>) -> bool {
    &&& unit.len() > 0
    &&& unit.last() != 0
    &&& forall|i: int|
        #![trigger unit[i]]
        0 <= i < unit.len() - 2 && unit[i] == 0 && unit[i + 1] == 0 ==> unit[i + 2] > 1
}

/// Can each of the units stand in a byte stream as it is?
pub open spec fn all_framable(units: Seq<(bool, Seq<u8>)>) -> bool {
    forall|i: int| 0 <= i < units.len() ==> framable((#[trigger] units[i]).1)
}

/// The byte stream of some units, each behind a start code, which is a long one where the unit comes
/// with `true`.
pub open spec fn byte_stream(units: Seq<(bool, Seq<u8>)>) -> Seq<u8>
    decreases units.len(),
{
    if units.len() == 0 {
        seq![]
    } else {
        byte_stream(units.drop_last()) + start_code(units.last().0) + units.last().1
    }
}

/// The reports on a byte stream of these units: each is complete where the next one begins, so the
/// last one is not.
pub open spec fn open_reports(units: Seq<(bool, Seq<u8>)>) -> Seq<(bool, Seq<u8>)> {
    Seq::new(units.len(), |i: int| (i < units.len() - 1, units[i].1))
}

/// The reports on a byte stream of these units, once the end of the stream is known: the last unit
/// is reported again, as a complete one.
pub open spec fn closed_reports(units: Seq<(bool, Seq<u8>)>) -> Seq<(bool, Seq<u8>)> {
    if units.len() == 0 {
        seq![]
    } else {
        open_reports(units).push((true, units.last().1))
    }
}

/// What `AnnexBReader::push` reports of a byte stream.
pub uninterp spec fn pushed_reports(stream: Seq<u8>) -> Seq<(bool, Seq<u8>)>;

/// What `AnnexBReader::push` and then `AnnexBReader::reset` report of a byte stream.
pub uninterp spec fn reset_reports(stream: Seq<u8>) -> Seq<(bool, Seq<u8>)>;

/// `h264_reader::annexb::AnnexBReader`, given the whole stream in one `push`: every unit it reports
/// to its handler, which asks to be told again of a unit that is not complete. Of a stream that is
/// made of units and start codes, it reports the units.
#[verifier::external_body]
pub(crate) fn read_open(stream: &[u8]) -> (reports: Vec<NalReport>)
    ensures
        report_views(reports@) == pushed_reports(stream@),
        forall|units: Seq<(bool, Seq<u8>)>|
            stream@ == #[trigger] byte_stream(units) && all_framable(units) ==> report_views(reports@)
                == open_reports(units),
{
    let mut reports = Vec::new();
    let mut reader = h264_reader::annexb::AnnexBReader::accumulate(|nal: h264_reader::nal::RefNal<'_>| {
        note(&mut reports, nal.is_complete(), nal.reader().fill_buf().unwrap_or_default());
        h264_reader::push::NalInterest::Buffer
    });
    reader.push(stream);
    drop(reader);
    reports
}

/// As [`read_open`], and then `AnnexBReader::reset`, which tells the reader that the stream has come
/// to its end.
#[verifier::external_body]
pub(crate) fn read_closed(stream: &[u8]) -> (reports: Vec<NalReport>)
    ensures
        report_views(reports@) == reset_reports(stream@),
        forall|units: Seq<(bool, Seq<u8>)>|
            stream@ == #[trigger] byte_stream(units) && all_framable(units) ==> report_views(reports@)
                == closed_reports(units),
{
    let mut reports = Vec::new();
    let mut reader = h264_reader::annexb::AnnexBReader::accumulate(|nal: h264_reader::nal::RefNal<'_>| {
        note(&mut reports, nal.is_complete(), nal.reader().fill_buf().unwrap_or_default());
        h264_reader::push::NalInterest::Buffer
    });
    reader.push(stream);
    reader.reset();
    drop(reader);
    reports
}

/// The type of a unit, by its header: the low five bits, where the bit that has to be zero is.
pub open spec fn type_of(header: u8) -> Option<u8> {
    if header < 0x80 {
        Some(header % 32)
    } else {
        None
    }
}

/// The type of a unit, by its header; none where the header is not one of a unit.
pub fn unit_type(header: u8) -> (found: Option<u8>)
    ensures
        found == type_of(header),
{
    if header < 0x80 {
        Some(header % 32)
    } else {
        None
    }
}

/// Is this the report of a whole unit with a proper header?
pub open spec fn whole(report: (bool, Seq<u8>)) -> bool {
    report.0 && report.1.len() > 0 && type_of(report.1[0]) is Some
}

impl NalReport {
    /// The header of the unit, where this is the report of a whole one.
    pub fn whole_type(&self) -> (found: Option<u8>)
        ensures
            found == (if whole(self@) {
                type_of(self.head@[0])
            } else {
                None
            }),
    {
        if self.complete && self.head.len() > 0 {
            unit_type(self.head[0])
        } else {
            None
        }
    }
}

/// The units laid out as in Matroska: each behind its length, in four bytes. A unit whose length
/// does not fit is left out, and so are reports of units that are not whole.
pub open spec fn length_prefixed(reports: Seq<(bool, Seq<u8>)>) -> Seq<u8>
    decreases reports.len(),
{
    if reports.len() == 0 {
        seq![]
    } else {
        let before = length_prefixed(reports.drop_last());
        let (_, unit) = reports.last();
        if whole(reports.last()) && unit.len() <= u32::MAX {
            before + crate::ebml::be_bytes(unit.len(), 4) + unit
        } else {
            before
        }
    }
}

/// Lays the units out as in Matroska: each behind its length, in four bytes.
pub fn prefix_lengths(reports: &Vec<NalReport>) -> (data: Vec<u8>)
    ensures
        data@ == length_prefixed(report_views(reports@)),
{
    let mut data: Vec<u8> = Vec::with_capacity(10_000);
    let mut i: usize = 0;
    proof {
        assert(report_views(reports@).take(0) =~= seq![]);
    }
    while i < reports.len()
        invariant
            i <= reports.len(),
            data@ == length_prefixed(report_views(reports@).take(i as int)),
        decreases reports.len() - i,
    {
        let report = &reports[i];
        proof {
            let views = report_views(reports@);
            assert(views.take(i + 1).drop_last() =~= views.take(i as int));
            assert(views.take(i + 1).last() == report@);
        }
        if let Some(_) = report.whole_type() {
            if report.head.len() <= 0xffff_ffff {
                let length = crate::ebml::u32_bytes(report.head.len() as u32);
                data.extend_from_slice(length.as_slice());
                data.extend_from_slice(report.head.as_slice());
            }
        }
        i += 1;
    }
    proof {
        assert(report_views(reports@).take(i as int) =~= report_views(reports@));
    }
    data
}

/// Units laid out as in Matroska: each behind its length, in four bytes. A unit without a proper header, or
/// whose length does not fit, is left out.
pub open spec fn prefixed_units(units: Seq<(bool, Seq<u8>)>) -> Seq<u8>
    decreases units.len(),
{
    if units.len() == 0 {
        seq![]
    } else {
        let before = prefixed_units(units.drop_last());
        let (_, unit) = units.last();
        if type_of(unit[0]) is Some && unit.len() <= u32::MAX {
            before + crate::ebml::be_bytes(unit.len(), 4) + unit
        } else {
            before
        }
    }
}

/// Reports of units that are all complete.
proof fn lemma_complete_reports(units: Seq<(bool, Seq<u8>)>, reports: Seq<(bool, Seq<u8>)>)
    requires
        all_framable(units),
        reports.len() == units.len(),
        forall|i: int| 0 <= i < units.len() ==> #[trigger] reports[i] == (true, units[i].1),
    ensures
        length_prefixed(reports) == prefixed_units(units),
    decreases units.len(),
{
    if units.len() > 0 {
        let last = units.len() - 1;
        assert(reports.last() == reports[last]);
        assert(units.last() == units[last]);
        assert(framable(units[last].1));
        assert forall|i: int| 0 <= i < last implies #[trigger] reports.drop_last()[i] == (
            true,
            units.drop_last()[i].1,
        ) by {
            assert(reports.drop_last()[i] == reports[i]);
        }
        assert forall|i: int| 0 <= i < last implies framable((#[trigger] units.drop_last()[i]).1) by {
            assert(units.drop_last()[i] == units[i]);
        }
        lemma_complete_reports(units.drop_last(), reports.drop_last());
    }
}

/// The type of a unit is told by its header, whatever the other bits are: it is the low five bits, and there is
/// one just where the highest bit is clear.
pub proof fn law_unit_type(header: u8, found: Option<u8>)
    requires
        call_ensures(unit_type, (header,), found),
    ensures
        header & 0x80 == 0 ==> found == Some(header & 0x1f),
        header & 0x80 != 0 ==> found is None,
{
    assert(header & 0x80 == 0 <==> header < 0x80) by (bit_vector);
    assert(header & 0x1f == header % 32) by (bit_vector);
}

/// A report has a type just where it is complete, not empty, and its first byte has the highest bit clear; then
/// it is the low five bits of that byte.
pub proof fn law_whole_type(report: NalReport, found: Option<u8>)
    requires
        call_ensures(NalReport::whole_type, (&report,), found),
    ensures
        ({
            let head = report.head@;
            if report.complete && head.len() > 0 && head[0] & 0x80 == 0 {
                found == Some(head[0] & 0x1f)
            } else {
                found is None
            }
        }),
{
    let head = report.head@;
    if head.len() > 0 {
        let header = head[0];
        assert(header & 0x80 == 0 <==> header < 0x80) by (bit_vector);
        assert(header & 0x1f == header % 32) by (bit_vector);
    }
}

/// Where the first unit in some data ends, going by the four bytes in front of it.
pub open spec fn first_end(data: Seq<u8>) -> int {
    4 + data[0] * 0x100_0000 + data[1] * 0x1_0000 + data[2] * 0x100 + data[3]
}

/// The units in some data, as a receiver reads them: four bytes say how many bytes of a unit come behind them.
/// `None` where the data is cut off.
pub open spec fn read_units(data: Seq<u8>) -> Option<Seq<Seq<u8>>>
    decreases data.len(),
{
    if data.len() == 0 {
        Some(seq![])
    } else if data.len() < 4 {
        None
    } else {
        let end = first_end(data);
        if end > data.len() {
            None
        } else {
            match read_units(data.skip(end)) {
                Some(rest) => Some(seq![data.subrange(4, end)] + rest),
                None => None,
            }
        }
    }
}

/// The units among some reports that a receiver is to get: those that are complete, of which the first byte has
/// the highest bit clear, and whose length four bytes can say.
pub open spec fn sent_units(reports: Seq<(bool, Seq<u8>)>) -> Seq<Seq<u8>>
    decreases reports.len(),
{
    if reports.len() == 0 {
        seq![]
    } else {
        let (complete, unit) = reports.last();
        if complete && unit.len() > 0 && unit[0] < 0x80 && unit.len() < 0x1_0000_0000 {
            sent_units(reports.drop_last()).push(unit)
        } else {
            sent_units(reports.drop_last())
        }
    }
}

/// A unit behind its length is read as that unit.
proof fn lemma_read_one(unit: Seq<u8>)
    requires
        unit.len() <= u32::MAX,
    ensures
        crate::ebml::be_bytes(unit.len(), 4).len() == 4,
        read_units(crate::ebml::be_bytes(unit.len(), 4) + unit) == Some(seq![unit]),
{
    let n = unit.len() as int;
    let length = crate::ebml::be_bytes(unit.len(), 4);
    let more = length + unit;
    crate::ebml::lemma_be_bytes_4(unit.len());
    let (a, b, c, d) = (n / 0x100_0000, n / 0x1_0000 % 0x100, n / 0x100 % 0x100, n % 0x100);
    assert(a * 0x100_0000 + b * 0x1_0000 + c * 0x100 + d == n);
    assert(more[0] == a && more[1] == b && more[2] == c && more[3] == d);
    assert(first_end(more) == 4 + n);
    assert(more.skip(4 + n) =~= seq![]);
    assert(more.subrange(4, 4 + n) =~= unit);
    assert(read_units(seq![]) == Some(Seq::<Seq<u8>>::empty()));
    assert(seq![unit] + Seq::<Seq<u8>>::empty() =~= seq![unit]);
}

/// Units behind some data are read behind the units in it.
proof fn lemma_read_more(data: Seq<u8>, more: Seq<u8>)
    requires
        read_units(data) is Some,
        read_units(more) is Some,
    ensures
        read_units(data + more) == Some(read_units(data)->0 + read_units(more)->0),
    decreases data.len(),
{
    if data.len() == 0 {
        assert(data + more =~= more);
        assert(read_units(data)->0 + read_units(more)->0 =~= read_units(more)->0);
    } else {
        let end = first_end(data);
        let rest = data.skip(end);
        let both = data + more;
        lemma_read_more(rest, more);
        assert(first_end(both) == end);
        assert(both.skip(end) =~= rest + more);
        assert(both.subrange(4, end) =~= data.subrange(4, end));
        let first = seq![data.subrange(4, end)];
        assert(first + (read_units(rest)->0 + read_units(more)->0) =~= (first + read_units(rest)->0)
            + read_units(more)->0);
    }
}

/// The same, for data that is laid out.
pub(crate) proof fn lemma_read_prefixed(reports: Seq<(bool, Seq<u8>)>)
    ensures
        read_units(length_prefixed(reports)) == Some(sent_units(reports)),
    decreases reports.len(),
{
    if reports.len() > 0 {
        lemma_read_prefixed(reports.drop_last());
        let (_, unit) = reports.last();
        if whole(reports.last()) && unit.len() <= u32::MAX {
            let before = length_prefixed(reports.drop_last());
            let length = crate::ebml::be_bytes(unit.len(), 4);
            lemma_read_one(unit);
            lemma_read_more(before, length + unit);
            assert(before + length + unit =~= before + (length + unit));
            assert(sent_units(reports.drop_last()).push(unit) =~= sent_units(reports.drop_last()) + seq![unit]);
        }
    }
}

/// What is laid out can be read back: a receiver gets the units of all reports of whole units with a clear
/// highest bit, in order, byte for byte, and nothing else.
pub proof fn law_units_read_back(reports: Vec<NalReport>, data: Vec<u8>)
    requires
        call_ensures(prefix_lengths, (&reports,), data),
    ensures
        read_units(data@) == Some(
            sent_units(Seq::new(reports@.len(), |i: int| (reports@[i].complete, reports@[i].head@))),
        ),
{
    let views = Seq::new(reports@.len(), |i: int| (reports@[i].complete, reports@[i].head@));
    assert(report_views(reports@) =~= views);
    lemma_read_prefixed(views);
}

/// Units that are all reported as complete, and again the last one as not complete, are all sent.
proof fn lemma_sent_complete(units: Seq<(bool, Seq<u8>)>, reports: Seq<(bool, Seq<u8>)>)
    requires
        reports.len() == units.len(),
        forall|i: int| 0 <= i < units.len() ==> #[trigger] reports[i] == (true, units[i].1),
        forall|i: int|
            0 <= i < units.len() ==> {
                &&& 0 < (#[trigger] units[i]).1.len() < 0x1_0000_0000
                &&& units[i].1[0] < 0x80
            },
    ensures
        sent_units(reports) == Seq::new(units.len(), |i: int| units[i].1),
    decreases units.len(),
{
    let all = Seq::new(units.len(), |i: int| units[i].1);
    if units.len() == 0 {
        assert(sent_units(reports) =~= all);
    } else {
        let last = units.len() - 1;
        let rest = units.drop_last();
        assert(reports.last() == reports[last]);
        assert forall|i: int| 0 <= i < rest.len() implies #[trigger] reports.drop_last()[i] == (true, rest[i].1) by {
            assert(reports.drop_last()[i] == reports[i]);
        }
        assert forall|i: int| 0 <= i < rest.len() implies {
            &&& 0 < (#[trigger] rest[i]).1.len() < 0x1_0000_0000
            &&& rest[i].1[0] < 0x80
        } by {
            assert(rest[i] == units[i]);
        }
        lemma_sent_complete(rest, reports.drop_last());
        assert(units[last].1[0] < 0x80);
        assert(sent_units(reports) =~= all);
    }
}

/// Of a byte stream whose end is known, every unit is sent, once and in turn: of units that can stand in a byte
/// stream, have a clear highest bit, and whose length four bytes can say, a receiver gets all.
pub proof fn law_all_units_sent(units: Seq<(bool, Seq<u8>)>)
    requires
        all_framable(units),
        forall|i: int|
            0 <= i < units.len() ==> (#[trigger] units[i]).1[0] < 0x80 && units[i].1.len() < 0x1_0000_0000,
    ensures
        sent_units(closed_reports(units)) == Seq::new(units.len(), |i: int| units[i].1),
{
    let all = Seq::new(units.len(), |i: int| units[i].1);
    if units.len() == 0 {
        assert(sent_units(closed_reports(units)) =~= all);
    } else {
        let reports = closed_reports(units);
        let open = open_reports(units);
        let rest = units.drop_last();
        assert(framable(units[units.len() - 1].1));
        assert(reports.drop_last() =~= open);
        assert(sent_units(open) == sent_units(open.drop_last()));
        assert forall|i: int| 0 <= i < rest.len() implies #[trigger] open.drop_last()[i] == (true, rest[i].1) by {
            assert(rest[i] == units[i]);
        }
        assert forall|i: int| 0 <= i < rest.len() implies {
            &&& 0 < (#[trigger] rest[i]).1.len() < 0x1_0000_0000
            &&& rest[i].1[0] < 0x80
        } by {
            assert(rest[i] == units[i]);
            assert(framable(units[i].1));
        }
        lemma_sent_complete(rest, open.drop_last());
        assert(units.last() == units[units.len() - 1]);
        assert(sent_units(reports) =~= all);
    }
}

/// Of a byte stream of units, once its end is known, every unit is laid out, once and in turn, though the
/// last one is reported twice.
pub proof fn law_every_unit_once(units: Seq<(bool, Seq<u8>)>)
    requires
        all_framable(units),
    ensures
        length_prefixed(closed_reports(units)) == prefixed_units(units),
{
    if units.len() > 0 {
        let rest = units.drop_last();
        let reports = closed_reports(units);
        let last = units.last();
        assert(last == units[units.len() - 1]);
        assert(framable(last.1));
        assert(reports.drop_last() =~= open_reports(units));
        assert(reports.last() == (true, last.1));
        let open = open_reports(units);
        assert(open.last() == (false, last.1));
        assert(!whole(open.last()));
        assert(length_prefixed(open) == length_prefixed(open.drop_last()));
        assert forall|i: int| 0 <= i < rest.len() implies #[trigger] open.drop_last()[i] == (
            true,
            rest[i].1,
        ) by {
            assert(rest[i] == units[i]);
        }
        assert forall|i: int| 0 <= i < rest.len() implies framable((#[trigger] rest[i]).1) by {
            assert(rest[i] == units[i]);
        }
        lemma_complete_reports(rest, open.drop_last());
    }
}

} // verus!
