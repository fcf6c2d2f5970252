//! Format normalisers: each turns the raw fields of one input record into a
//! `ReadMetrics`.
use crate::collection::{collection_views, combined, names_view, same_chars, total_len, MetricsCollection};
use crate::error::NanogetError;
use crate::metrics::{bare_read, opt_chars, texts, views_of, ReadMetrics, ReadView, Timestamp};
use crate::parse::{
    find_char, fixed_value, index_of, parse_fixed, parse_thousandths, parse_unsigned,
    split_words, thousandths_value, unsigned_value, words,
};
use crate::text::{chars_of, string_of};
use vstd::prelude::*;

verus! {

/// Sequencing-run metadata carried in the annotation of a rich FASTQ record.
#[derive(Debug)]
pub struct RichFastqMetadata {
    pub channel_id: Option<u16>,
    pub start_time: Option<Timestamp>,
    /// In milliseconds.
    pub duration: Option<u64>,
    pub run_id: Option<String>,
}

pub ghost struct RichView {
    pub channel_id: Option<u16>,
    pub start_time: Option<Timestamp>,
    pub duration: Option<u64>,
    pub run_id: Option<Seq<char>>,
}

impl View for RichFastqMetadata {
    type V = RichView;

    open spec fn view(&self) -> RichView {
        RichView {
            channel_id: self.channel_id,
            start_time: self.start_time,
            duration: self.duration,
            run_id: opt_chars(self.run_id),
        }
    }
}

pub open spec fn no_metadata() -> RichView {
    RichView { channel_id: None, start_time: None, duration: None, run_id: None }
}

pub open spec fn u16_value(cs: Seq<char>) -> Option<u16> {
    match unsigned_value(cs) {
        Some(v) => if v <= 0xffff {
            Some(v as u16)
        } else {
            None
        },
        None => None,
    }
}

pub open spec fn u32_value(cs: Seq<char>) -> Option<u32> {
    match unsigned_value(cs) {
        Some(v) => if v <= 0xffff_ffff {
            Some(v as u32)
        } else {
            None
        },
        None => None,
    }
}

/// A decimal number of seconds, in milliseconds.
pub open spec fn millis_value(cs: Seq<char>) -> Option<u64> {
    match thousandths_value(cs) {
        Some(v) => if v <= 0xffff_ffff_ffff_ffff {
            Some(v as u64)
        } else {
            None
        },
        None => None,
    }
}

/// A decimal score, in thousandths.
pub open spec fn score_value(cs: Seq<char>) -> Option<u32> {
    match thousandths_value(cs) {
        Some(v) => if v <= 0xffff_ffff {
            Some(v as u32)
        } else {
            None
        },
        None => None,
    }
}

/// A decimal number of seconds since the epoch, to the nanosecond.
pub open spec fn timestamp_value(cs: Seq<char>) -> Option<Timestamp> {
    match fixed_value(cs, 9) {
        Some((w, f)) => if w <= 0x7fff_ffff_ffff_ffff {
            Some(Timestamp { secs: w as i64, nanos: f as u32 })
        } else {
            None
        },
        None => None,
    }
}

/// The effect of one `key=value` word on the metadata read so far: `ch`,
/// `duration` and `runid` set their field (an unparsable number clears it),
/// `start_time` sets the start when it parses; other words change nothing.
pub open spec fn apply_field(acc: RichView, w: Seq<char>) -> RichView {
    let p = index_of(w, '=');
    if p >= w.len() {
        acc
    } else {
        let key = w.take(p);
        let value = w.skip(p + 1);
        if key == "ch"@ {
            RichView { channel_id: u16_value(value), ..acc }
        } else if key == "start_time"@ {
            match timestamp_value(value) {
                Some(t) => RichView { start_time: Some(t), ..acc },
                None => acc,
            }
        } else if key == "duration"@ {
            RichView { duration: millis_value(value), ..acc }
        } else if key == "runid"@ {
            RichView { run_id: Some(value), ..acc }
        } else {
            acc
        }
    }
}

pub open spec fn fold_fields(ws: Seq<Seq<char>>) -> RichView
    decreases ws.len(),
{
    if ws.len() == 0 {
        no_metadata()
    } else {
        apply_field(fold_fields(ws.drop_last()), ws.last())
    }
}

/// The metadata of an annotation, or `None` when it sets no field.
pub open spec fn rich_metadata(desc: Seq<char>) -> Option<RichView> {
    let m = fold_fields(words(desc));
    if m.channel_id is Some || m.start_time is Some || m.duration is Some || m.run_id is Some {
        Some(m)
    } else {
        None
    }
}

pub open spec fn opt_rich(o: Option<RichFastqMetadata>) -> Option<RichView> {
    match o {
        Some(m) => Some(m@),
        None => None,
    }
}

/// Whether `cs[from..to]` holds exactly the characters of `lit`.
fn span_is(cs: &Vec<char>, from: usize, to: usize, lit: &str) -> (r: bool)
    requires
        from <= to <= cs@.len(),
    ensures
        r == (cs@.subrange(from as int, to as int) == lit@),
{
    let a = string_of(cs, from, to);
    let ac = chars_of(a.as_str());
    let b = chars_of(lit);
    same_chars(&ac, &b)
}

fn apply_field_at(acc: &mut RichFastqMetadata, cs: &Vec<char>, from: usize, to: usize)
    requires
        from <= to <= cs@.len(),
    ensures
        final(acc)@ == apply_field(old(acc)@, cs@.subrange(from as int, to as int)),
{
    let ghost w = cs@.subrange(from as int, to as int);
    let p = find_char(cs, from, to, '=');
    if from + p >= to {
        return;
    }
    let key_end = from + p;
    let value_start = key_end + 1;
    assert(w.take(p as int) =~= cs@.subrange(from as int, key_end as int));
    assert(w.skip(p + 1) =~= cs@.subrange(value_start as int, to as int));
    if span_is(cs, from, key_end, "ch") {
        acc.channel_id = match parse_unsigned(cs, value_start, to, 0xffff) {
            Some(v) => Some(v as u16),
            None => None,
        };
    } else if span_is(cs, from, key_end, "start_time") {
        match parse_fixed(cs, value_start, to, 9, 0x7fff_ffff_ffff_ffff) {
            Some((secs, nanos)) => {
                proof {
                    reveal_with_fuel(crate::parse::pow10, 10);
                }
                acc.start_time = Some(Timestamp { secs: secs as i64, nanos: nanos as u32 });
            },
            None => {},
        }
    } else if span_is(cs, from, key_end, "duration") {
        acc.duration = parse_thousandths(cs, value_start, to, 0xffff_ffff_ffff_ffff);
    } else if span_is(cs, from, key_end, "runid") {
        acc.run_id = Some(string_of(cs, value_start, to));
    }
}

/// Reads the whitespace-separated `key=value` words of a rich FASTQ
/// annotation. `None` when no recognised key gave a value.
pub fn parse_rich_fastq_metadata(desc: &str) -> (r: Option<RichFastqMetadata>)
    ensures
        opt_rich(r) == rich_metadata(desc@),
{
    let cs = chars_of(desc);
    let spans = split_words(&cs);
    let ghost ws = words(cs@);
    let mut m = RichFastqMetadata { channel_id: None, start_time: None, duration: None, run_id: None };
    let mut k: usize = 0;
    while k < spans.len()
        invariant
            cs@ == desc@,
            ws == words(cs@),
            spans@.len() == ws.len(),
            forall|j: int|
                0 <= j < spans@.len() ==> (#[trigger] spans@[j]).0 <= spans@[j].1 <= cs@.len()
                    && ws[j] == cs@.subrange(spans@[j].0 as int, spans@[j].1 as int),
            k <= spans@.len(),
            m@ == fold_fields(ws.take(k as int)),
        decreases spans@.len() - k,
    {
        let (from, to) = spans[k];
        proof {
            assert(ws.take(k as int + 1).drop_last() =~= ws.take(k as int));
            assert(spans@[k as int] == (from, to));
        }
        apply_field_at(&mut m, &cs, from, to);
        k = k + 1;
    }
    proof {
        assert(ws.take(ws.len() as int) =~= ws);
    }
    if m.channel_id.is_some() || m.start_time.is_some() || m.duration.is_some() || m.run_id.is_some() {
        Some(m)
    } else {
        None
    }
}

/// The per-base quality value that aligned-record formats use for "unknown".
pub const UNKNOWN_QUALITY: u8 = 255;

/// The mapping quality that aligned-record formats use for "unknown".
pub const UNKNOWN_MAPPING_QUALITY: u8 = 255;

/// Percent identity, in thousandths of a percent, attached to every aligned
/// record. It is a fixed stand-in, not computed from the alignment.
pub const PLACEHOLDER_IDENTITY: u32 = 95000;

/// Every per-base quality is the unknown marker (vacuously so when there is
/// none).
pub open spec fn all_unknown(qual: Seq<u8>) -> bool {
    forall|i: int| 0 <= i < qual.len() ==> qual[i] == UNKNOWN_QUALITY
}

/// The raw fields of one record of an aligned-record container.
pub struct AlignedRecord {
    pub name: String,
    pub length: u32,
    pub qual: Vec<u8>,
    pub mapq: u8,
    pub unmapped: bool,
    pub supplementary: bool,
}

/// The quality of a record: absent when every per-base score is unknown,
/// else the average of the scores.
pub open spec fn known_quality(qual: Seq<u8>, average: Option<u32>) -> Option<u32> {
    if all_unknown(qual) {
        None
    } else {
        average
    }
}

/// A FASTQ record: identifier, length and average quality, plus the
/// annotation's run metadata when `rich` holds and the annotation has any.
pub open spec fn fastq_read(
    id: Seq<char>,
    length: u32,
    average: Option<u32>,
    desc: Option<Seq<char>>,
    rich: bool,
) -> ReadView {
    let base = ReadView { quality: average, ..bare_read(Some(id), length) };
    if rich {
        let text = match desc {
            Some(d) => d,
            None => Seq::empty(),
        };
        match rich_metadata(text) {
            Some(m) => ReadView {
                channel_id: m.channel_id,
                start_time: m.start_time,
                duration: m.duration,
                run_id: m.run_id,
                ..base
            },
            None => base,
        }
    } else {
        base
    }
}

/// A record of an aligned-record container, or `None` when it is dropped:
/// unmapped records always, supplementary ones unless they are kept.
pub open spec fn aligned_read(
    name: Seq<char>,
    length: u32,
    qual: Seq<u8>,
    mapq: u8,
    unmapped: bool,
    supplementary: bool,
    average: Option<u32>,
    keep_supplementary: bool,
) -> Option<ReadView> {
    if unmapped || (supplementary && !keep_supplementary) {
        None
    } else {
        let q = known_quality(qual, average);
        Some(
            ReadView {
                quality: q,
                aligned_length: Some(length),
                aligned_quality: q,
                mapping_quality: if mapq == UNKNOWN_MAPPING_QUALITY {
                    None
                } else {
                    Some(mapq)
                },
                percent_identity: Some(PLACEHOLDER_IDENTITY),
                ..bare_read(Some(name), length)
            },
        )
    }
}

fn quality_known(qual: &Vec<u8>, average: Option<u32>) -> (r: Option<u32>)
    ensures
        r == known_quality(qual@, average),
{
    let mut i: usize = 0;
    while i < qual.len()
        invariant
            i <= qual@.len(),
            forall|k: int| 0 <= k < i ==> qual@[k] == UNKNOWN_QUALITY,
        decreases qual@.len() - i,
    {
        if qual[i] != UNKNOWN_QUALITY {
            return average;
        }
        i = i + 1;
    }
    None
}

/// Normalises a FASTQ record. `average_quality` is the average of its
/// per-base scores, as the quality codec computes it.
pub fn process_fastq_record(
    id: String,
    length: u32,
    average_quality: Option<u32>,
    desc: Option<String>,
    rich: bool,
) -> (r: ReadMetrics)
    ensures
        r@ == fastq_read(id@, length, average_quality, opt_chars(desc), rich),
{
    let mut read = ReadMetrics::new(Some(id), length);
    read.quality = average_quality;
    if rich {
        let metadata = match &desc {
            Some(d) => parse_rich_fastq_metadata(d.as_str()),
            None => parse_rich_fastq_metadata(""),
        };
        proof {
            if desc is None {
                reveal_strlit("");
            }
        }
        if let Some(m) = metadata {
            read = read.with_sequencing_metadata(m.channel_id, m.start_time, m.duration);
            read.run_id = m.run_id;
        }
    }
    read
}

/// Normalises a FASTQ record in minimal mode: the length alone, with no
/// identifier even where the source has one.
pub fn process_fastq_minimal_record(length: u32) -> (r: ReadMetrics)
    ensures
        r@ == bare_read(None, length),
{
    ReadMetrics::new(None, length)
}

/// Normalises a FASTA record: identifier and length; the format has no
/// qualities.
pub fn process_fasta_record(id: String, length: u32) -> (r: ReadMetrics)
    ensures
        r@ == bare_read(Some(id@), length),
{
    ReadMetrics::new(Some(id), length)
}

/// Normalises a record of an aligned container (BAM or CRAM).
/// `average_quality` is the codec's average of `record.qual`.
pub fn process_bam_record(
    record: AlignedRecord,
    average_quality: Option<u32>,
    keep_supplementary: bool,
) -> (r: Option<ReadMetrics>)
    ensures
        match r {
            Some(m) => aligned_read(
                record.name@,
                record.length,
                record.qual@,
                record.mapq,
                record.unmapped,
                record.supplementary,
                average_quality,
                keep_supplementary,
            ) == Some(m@),
            None => aligned_read(
                record.name@,
                record.length,
                record.qual@,
                record.mapq,
                record.unmapped,
                record.supplementary,
                average_quality,
                keep_supplementary,
            ) is None,
        },
{
    if record.unmapped || (record.supplementary && !keep_supplementary) {
        return None;
    }
    let quality = quality_known(&record.qual, average_quality);
    let mapping_quality = if record.mapq == UNKNOWN_MAPPING_QUALITY {
        None
    } else {
        Some(record.mapq)
    };
    let length = record.length;
    let mut read = ReadMetrics::new(Some(record.name), length);
    read.quality = quality;
    Some(read.with_alignment(length, quality, mapping_quality, Some(PLACEHOLDER_IDENTITY)))
}

/// Normalises a record of an unaligned container: never dropped, and no
/// alignment attributes. `average_quality` is the codec's average of
/// `record.qual`.
pub fn process_ubam_record(record: AlignedRecord, average_quality: Option<u32>) -> (r: ReadMetrics)
    ensures
        r@ == (ReadView {
            quality: known_quality(record.qual@, average_quality),
            ..bare_read(Some(record.name@), record.length)
        }),
{
    let quality = quality_known(&record.qual, average_quality);
    let mut read = ReadMetrics::new(Some(record.name), record.length);
    read.quality = quality;
    read
}

/// Which pair of columns of a run-summary table holds a read's length and
/// quality.
#[derive(Debug, Clone, Copy, PartialEq, Eq, Structural)]
pub enum ReadType {
    /// `1D`: the template columns.
    OneD,
    /// `2D` or `1D2`: the two-direction columns.
    TwoD,
}

impl ReadType {
    pub open spec fn length_column(self) -> Seq<char> {
        match self {
            ReadType::OneD => "sequence_length_template"@,
            ReadType::TwoD => "sequence_length_2d"@,
        }
    }

    pub open spec fn quality_column(self) -> Seq<char> {
        match self {
            ReadType::OneD => "mean_qscore_template"@,
            ReadType::TwoD => "mean_qscore_2d"@,
        }
    }

    /// The read type that `name` selects, if any.
    pub open spec fn named(name: Seq<char>) -> Option<ReadType> {
        if name == "1D"@ {
            Some(ReadType::OneD)
        } else if name == "2D"@ || name == "1D2"@ {
            Some(ReadType::TwoD)
        } else {
            None
        }
    }

    /// Reads a read-type selector: `1D`, `2D` or `1D2`.
    pub fn from_name(name: &str) -> (r: Result<ReadType, NanogetError>)
        ensures
            match r {
                Ok(t) => ReadType::named(name@) == Some(t),
                Err(e) => ReadType::named(name@) is None && e is InvalidInput,
            },
    {
        let cs = chars_of(name);
        let n = cs.len();
        if span_is(&cs, 0, n, "1D") {
            assert(cs@.subrange(0, n as int) =~= cs@);
            Ok(ReadType::OneD)
        } else if span_is(&cs, 0, n, "2D") || span_is(&cs, 0, n, "1D2") {
            assert(cs@.subrange(0, n as int) =~= cs@);
            Ok(ReadType::TwoD)
        } else {
            assert(cs@.subrange(0, n as int) =~= cs@);
            let mut msg = String::from_str("Unsupported read type: ");
            msg.append(name);
            Err(NanogetError::InvalidInput(msg))
        }
    }

    fn length_name(self) -> (r: &'static str)
        ensures
            r@ == self.length_column(),
    {
        match self {
            ReadType::OneD => "sequence_length_template",
            ReadType::TwoD => "sequence_length_2d",
        }
    }

    fn quality_name(self) -> (r: &'static str)
        ensures
            r@ == self.quality_column(),
    {
        match self {
            ReadType::OneD => "mean_qscore_template",
            ReadType::TwoD => "mean_qscore_2d",
        }
    }
}

/// The index of the first column named `name`.
pub open spec fn column_of(header: Seq<Seq<char>>, name: Seq<char>) -> Option<nat>
    decreases header.len(),
{
    if header.len() == 0 {
        None
    } else if header[0] == name {
        Some(0)
    } else {
        match column_of(header.drop_first(), name) {
            Some(i) => Some(i + 1),
            None => None,
        }
    }
}

proof fn lemma_column_of(header: Seq<Seq<char>>, name: Seq<char>, i: int)
    requires
        0 <= i <= header.len(),
        forall|k: int| 0 <= k < i ==> header[k] != name,
        i == header.len() || header[i] == name,
    ensures
        column_of(header, name) == if i < header.len() {
            Some(i as nat)
        } else {
            None
        },
    decreases header.len(),
{
    if header.len() > 0 && i > 0 {
        lemma_column_of(header.drop_first(), name, i - 1);
    }
}

fn find_column(header: &Vec<String>, name: &str) -> (r: Option<usize>)
    ensures
        r matches Some(i) ==> column_of(texts(header@), name@) == Some(i as nat),
        r is None ==> column_of(texts(header@), name@) is None,
{
    let ghost h = texts(header@);
    let wanted = chars_of(name);
    let mut i: usize = 0;
    while i < header.len()
        invariant
            h == texts(header@),
            wanted@ == name@,
            i <= header@.len(),
            forall|k: int| 0 <= k < i ==> h[k] != name@,
        decreases header@.len() - i,
    {
        let here = chars_of(header[i].as_str());
        if same_chars(&here, &wanted) {
            proof {
                lemma_column_of(h, name@, i as int);
            }
            return Some(i);
        }
        i = i + 1;
    }
    proof {
        lemma_column_of(h, name@, i as int);
    }
    None
}

/// Where the fields of a run-summary table stand.
pub struct SummaryColumns {
    pub length: usize,
    pub quality: usize,
    pub channel: Option<usize>,
    pub start_time: Option<usize>,
    pub duration: Option<usize>,
    pub barcode: Option<usize>,
}

pub open spec fn opt_index(o: Option<nat>) -> Option<usize> {
    match o {
        Some(i) => Some(i as usize),
        None => None,
    }
}

/// The columns of a table with header `h`, or `None` when the length or the
/// quality column of the read type is missing. The barcode column is only
/// looked for when `barcoded` holds.
pub open spec fn columns_for(h: Seq<Seq<char>>, rt: ReadType, barcoded: bool) -> Option<
    SummaryColumns,
> {
    match (column_of(h, rt.length_column()), column_of(h, rt.quality_column())) {
        (Some(l), Some(q)) => Some(
            SummaryColumns {
                length: l as usize,
                quality: q as usize,
                channel: opt_index(column_of(h, "channel"@)),
                start_time: opt_index(column_of(h, "start_time"@)),
                duration: opt_index(column_of(h, "duration"@)),
                barcode: if barcoded {
                    opt_index(column_of(h, "barcode_arrangement"@))
                } else {
                    None
                },
            },
        ),
        _ => None,
    }
}

/// Locates the columns of a run-summary table from its header.
pub fn summary_columns(header: &Vec<String>, read_type: ReadType, barcoded: bool) -> (r: Result<
    SummaryColumns,
    NanogetError,
>)
    ensures
        match r {
            Ok(c) => columns_for(texts(header@), read_type, barcoded) == Some(c),
            Err(e) => columns_for(texts(header@), read_type, barcoded) is None && e is ParseError,
        },
{
    let length_name = read_type.length_name();
    let quality_name = read_type.quality_name();
    let length = match find_column(header, length_name) {
        Some(i) => i,
        None => {
            let mut msg = String::from_str("Missing column: ");
            msg.append(length_name);
            return Err(NanogetError::ParseError(msg));
        },
    };
    let quality = match find_column(header, quality_name) {
        Some(i) => i,
        None => {
            let mut msg = String::from_str("Missing column: ");
            msg.append(quality_name);
            return Err(NanogetError::ParseError(msg));
        },
    };
    let barcode = if barcoded {
        find_column(header, "barcode_arrangement")
    } else {
        None
    };
    Ok(
        SummaryColumns {
            length,
            quality,
            channel: find_column(header, "channel"),
            start_time: find_column(header, "start_time"),
            duration: find_column(header, "duration"),
            barcode,
        },
    )
}

pub open spec fn field_at(fields: Seq<Seq<char>>, i: Option<usize>) -> Option<Seq<char>> {
    match i {
        Some(k) => if k < fields.len() {
            Some(fields[k as int])
        } else {
            None
        },
        None => None,
    }
}

/// The record of one table row, or `None` when its length or quality is
/// missing or does not parse. Optional fields that are missing or do not
/// parse are absent.
pub open spec fn summary_read(cols: SummaryColumns, fields: Seq<Seq<char>>) -> Option<ReadView> {
    let length = match field_at(fields, Some(cols.length)) {
        Some(t) => u32_value(t),
        None => None,
    };
    let quality = match field_at(fields, Some(cols.quality)) {
        Some(t) => score_value(t),
        None => None,
    };
    if length is None || quality is None {
        None
    } else {
        Some(
            ReadView {
                quality,
                channel_id: match field_at(fields, cols.channel) {
                    Some(t) => u16_value(t),
                    None => None,
                },
                start_time: match field_at(fields, cols.start_time) {
                    Some(t) => timestamp_value(t),
                    None => None,
                },
                duration: match field_at(fields, cols.duration) {
                    Some(t) => millis_value(t),
                    None => None,
                },
                barcode: field_at(fields, cols.barcode),
                ..bare_read(None, length->0)
            },
        )
    }
}

fn field_chars(fields: &Vec<String>, i: Option<usize>) -> (r: Option<Vec<char>>)
    ensures
        match r {
            Some(v) => field_at(texts(fields@), i) == Some(v@),
            None => field_at(texts(fields@), i) is None,
        },
{
    match i {
        Some(k) => if k < fields.len() {
            Some(chars_of(fields[k].as_str()))
        } else {
            None
        },
        None => None,
    }
}

/// Normalises one row of a run-summary table.
pub fn summary_record(cols: &SummaryColumns, fields: &Vec<String>) -> (r: Result<
    ReadMetrics,
    NanogetError,
>)
    ensures
        match r {
            Ok(m) => summary_read(*cols, texts(fields@)) == Some(m@),
            Err(e) => summary_read(*cols, texts(fields@)) is None && e is ParseError,
        },
{
    let length = match field_chars(fields, Some(cols.length)) {
        Some(t) => match parse_unsigned(&t, 0, t.len(), 0xffff_ffff) {
            Some(v) => {
                assert(t@.subrange(0, t@.len() as int) =~= t@);
                v as u32
            },
            None => {
                assert(t@.subrange(0, t@.len() as int) =~= t@);
                return Err(NanogetError::ParseError(String::from_str("Invalid length")));
            },
        },
        None => {
            return Err(NanogetError::ParseError(String::from_str("Missing length field")));
        },
    };
    let quality = match field_chars(fields, Some(cols.quality)) {
        Some(t) => match parse_thousandths(&t, 0, t.len(), 0xffff_ffff) {
            Some(v) => {
                assert(t@.subrange(0, t@.len() as int) =~= t@);
                v as u32
            },
            None => {
                assert(t@.subrange(0, t@.len() as int) =~= t@);
                return Err(NanogetError::ParseError(String::from_str("Invalid quality")));
            },
        },
        None => {
            return Err(NanogetError::ParseError(String::from_str("Missing quality field")));
        },
    };
    let channel_id = match field_chars(fields, cols.channel) {
        Some(t) => {
            assert(t@.subrange(0, t@.len() as int) =~= t@);
            match parse_unsigned(&t, 0, t.len(), 0xffff) {
                Some(v) => Some(v as u16),
                None => None,
            }
        },
        None => None,
    };
    let start_time = match field_chars(fields, cols.start_time) {
        Some(t) => {
            assert(t@.subrange(0, t@.len() as int) =~= t@);
            match parse_fixed(&t, 0, t.len(), 9, 0x7fff_ffff_ffff_ffff) {
                Some((secs, nanos)) => {
                    proof {
                        reveal_with_fuel(crate::parse::pow10, 10);
                    }
                    Some(Timestamp { secs: secs as i64, nanos: nanos as u32 })
                },
                None => None,
            }
        },
        None => None,
    };
    let duration = match field_chars(fields, cols.duration) {
        Some(t) => {
            assert(t@.subrange(0, t@.len() as int) =~= t@);
            parse_thousandths(&t, 0, t.len(), 0xffff_ffff_ffff_ffff)
        },
        None => None,
    };
    let barcode = match cols.barcode {
        Some(k) => if k < fields.len() {
            Some(fields[k].clone())
        } else {
            None
        },
        None => None,
    };
    let mut read = ReadMetrics::new(None, length).with_quality(quality).with_sequencing_metadata(
        channel_id,
        start_time,
        duration,
    );
    read.barcode = barcode;
    Ok(read)
}

pub open spec fn rows_text(rows: Seq<Vec<String>>) -> Seq<Seq<Seq<char>>> {
    rows.map_values(|r: Vec<String>| texts(r@))
}

/// The records of all rows, or `None` when one of them fails.
pub open spec fn rows_read(cols: SummaryColumns, rows: Seq<Seq<Seq<char>>>) -> Option<Seq<ReadView>>
    decreases rows.len(),
{
    if rows.len() == 0 {
        Some(Seq::empty())
    } else {
        match (rows_read(cols, rows.drop_last()), summary_read(cols, rows.last())) {
            (Some(v), Some(r)) => Some(v.push(r)),
            _ => None,
        }
    }
}

/// Normalises a tab-separated run-summary table given as its header and
/// rows. The read type is checked and the required columns located before
/// any row is read; the first row that fails fails the whole table.
pub fn process_summary(
    header: &Vec<String>,
    rows: &Vec<Vec<String>>,
    read_type: &str,
    barcoded: bool,
) -> (r: Result<Vec<ReadMetrics>, NanogetError>)
    ensures
        ReadType::named(read_type@) is None ==> r matches Err(NanogetError::InvalidInput(_)),
        ReadType::named(read_type@) matches Some(rt) ==> match columns_for(
            texts(header@),
            rt,
            barcoded,
        ) {
            None => r matches Err(NanogetError::ParseError(_)),
            Some(c) => match rows_read(c, rows_text(rows@)) {
                Some(v) => r matches Ok(m) && views_of(m@) == v,
                None => r matches Err(NanogetError::ParseError(_)),
            },
        },
{
    let rt = ReadType::from_name(read_type)?;
    let cols = summary_columns(header, rt, barcoded)?;
    let ghost rs = rows_text(rows@);
    let mut out: Vec<ReadMetrics> = Vec::new();
    let mut i: usize = 0;
    while i < rows.len()
        invariant
            rs == rows_text(rows@),
            ReadType::named(read_type@) == Some(rt),
            columns_for(texts(header@), rt, barcoded) == Some(cols),
            i <= rows@.len(),
            rows_read(cols, rs.take(i as int)) == Some(views_of(out@)),
        decreases rows@.len() - i,
    {
        proof {
            assert(rs.take(i as int + 1).drop_last() =~= rs.take(i as int));
        }
        let ghost before = out@;
        match summary_record(&cols, &rows[i]) {
            Ok(m) => {
                out.push(m);
                proof {
                    assert(views_of(out@) =~= views_of(before).push(m@));
                }
            },
            Err(e) => {
                proof {
                    lemma_rows_read_fails(cols, rs, i as int + 1);
                    assert(rs.take(rs.len() as int) =~= rs);
                }
                return Err(e);
            },
        }
        i = i + 1;
    }
    proof {
        assert(rs.take(rs.len() as int) =~= rs);
    }
    Ok(out)
}

proof fn lemma_rows_read_fails(cols: SummaryColumns, rows: Seq<Seq<Seq<char>>>, i: int)
    requires
        0 <= i <= rows.len(),
        rows_read(cols, rows.take(i)) is None,
    ensures
        rows_read(cols, rows) is None,
    decreases rows.len() - i,
{
    if i < rows.len() {
        assert(rows.take(i + 1).drop_last() =~= rows.take(i));
        lemma_rows_read_fails(cols, rows, i + 1);
    } else {
        assert(rows.take(i) =~= rows);
    }
}

/// Combines the per-file collections, in input order, under the policy
/// `method`, and fails with `ProcessingError` when no record was found.
pub fn finish_extraction(
    collections: Vec<MetricsCollection>,
    method: &str,
    names: Option<Vec<String>>,
) -> (r: Result<MetricsCollection, NanogetError>)
    ensures
        r is Ok <==> total_len(collection_views(collections@)) > 0,
        r matches Ok(c) ==> c.wf() && views_of(c.reads@) == combined(
            collection_views(collections@),
            method@ == "track"@,
            names_view(names),
        ),
        r matches Err(e) ==> e is ProcessingError,
{
    let combined = MetricsCollection::combine(collections, method, names);
    if combined.summary.read_count == 0 {
        return Err(NanogetError::ProcessingError(String::from_str("No reads found in input files")));
    }
    Ok(combined)
}

} // verus!
