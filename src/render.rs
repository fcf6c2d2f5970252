//! The tab-separated text form of a collection.
use crate::collection::MetricsCollection;
use crate::error::NanogetError;
use crate::metrics::{
    identities_of, lengths_of, mapping_qualities_of, qualities_of, summarizes, views_of,
    MetricsSummary, ReadMetrics, ReadView, Timestamp,
};
use crate::stats::{consistent, lemma_stats_consistent, std_dev_hundredths, StatsSummary};
use crate::text::{decimal, digit, push_decimal};
use vstd::prelude::*;

verus! {

/// What chrono renders for a UTC time in RFC 3339 form.
pub uninterp spec fn rfc3339_of(secs: int, nanos: int) -> Seq<char>;

/// Relies on chrono: `DateTime::<Utc>::to_rfc3339` of the time that
/// `DateTime::from_timestamp` builds from the seconds and nanoseconds, or an
/// empty text where chrono cannot represent the time.
#[verifier::external_body]
fn rfc3339(t: Timestamp) -> (r: String)
    ensures
        r@ == rfc3339_of(t.secs as int, t.nanos as int),
{
    match chrono::DateTime::from_timestamp(t.secs, t.nanos) {
        Some(d) => d.to_rfc3339(),
        None => String::new(),
    }
}

/// `v` thousandths as a decimal with three fractional digits.
pub open spec fn milli_text(v: nat) -> Seq<char> {
    decimal(v / 1000) + seq!['.', digit((v / 100) % 10), digit((v / 10) % 10), digit(v % 10)]
}

pub open spec fn opt_text(o: Option<Seq<char>>) -> Seq<char> {
    match o {
        Some(s) => s,
        None => Seq::empty(),
    }
}

pub open spec fn opt_decimal(o: Option<nat>) -> Seq<char> {
    match o {
        Some(v) => decimal(v),
        None => Seq::empty(),
    }
}

pub open spec fn opt_milli(o: Option<nat>) -> Seq<char> {
    match o {
        Some(v) => milli_text(v),
        None => Seq::empty(),
    }
}

pub open spec fn nat_of_u32(o: Option<u32>) -> Option<nat> {
    match o {
        Some(v) => Some(v as nat),
        None => None,
    }
}

pub open spec fn nat_of_u16(o: Option<u16>) -> Option<nat> {
    match o {
        Some(v) => Some(v as nat),
        None => None,
    }
}

pub open spec fn nat_of_u8(o: Option<u8>) -> Option<nat> {
    match o {
        Some(v) => Some(v as nat),
        None => None,
    }
}

pub open spec fn nat_of_u64(o: Option<u64>) -> Option<nat> {
    match o {
        Some(v) => Some(v as nat),
        None => None,
    }
}

pub open spec fn time_text(o: Option<Timestamp>) -> Seq<char> {
    match o {
        Some(t) => rfc3339_of(t.secs as int, t.nanos as int),
        None => Seq::empty(),
    }
}

pub open spec fn row_read_part(r: ReadView) -> Seq<char> {
    opt_text(r.read_id) + "\t"@ + decimal(r.length as nat) + "\t"@ + opt_milli(nat_of_u32(r.quality))
        + "\t"@
}

pub open spec fn row_alignment_part(r: ReadView) -> Seq<char> {
    opt_decimal(nat_of_u32(r.aligned_length)) + "\t"@ + opt_milli(nat_of_u32(r.aligned_quality))
        + "\t"@ + opt_decimal(nat_of_u8(r.mapping_quality)) + "\t"@ + opt_milli(
        nat_of_u32(r.percent_identity),
    ) + "\t"@
}

pub open spec fn row_timing_part(r: ReadView) -> Seq<char> {
    opt_decimal(nat_of_u16(r.channel_id)) + "\t"@ + time_text(r.start_time) + "\t"@ + opt_milli(
        nat_of_u64(r.duration),
    ) + "\t"@
}

pub open spec fn row_labels_part(r: ReadView) -> Seq<char> {
    opt_text(r.barcode) + "\t"@ + opt_text(r.run_id) + "\t"@ + opt_text(r.dataset) + "\n"@
}

/// One row: the record's fields in column order, absent ones empty,
/// real-valued ones with three decimals.
pub open spec fn tsv_row(r: ReadView) -> Seq<char> {
    row_read_part(r) + row_alignment_part(r) + row_timing_part(r) + row_labels_part(r)
}

pub open spec fn tsv_rows(rs: Seq<ReadView>) -> Seq<char>
    decreases rs.len(),
{
    if rs.len() == 0 {
        Seq::empty()
    } else {
        tsv_rows(rs.drop_last()) + tsv_row(rs.last())
    }
}

fn push_milli(s: &mut String, v: u64)
    ensures
        final(s)@ == old(s)@ + milli_text(v as nat),
{
    push_decimal(s, (v / 1000) as u128);
    crate::text::push_char(s, '.');
    crate::text::push_char(s, crate::text::digit_char((v / 100) % 10));
    crate::text::push_char(s, crate::text::digit_char((v / 10) % 10));
    crate::text::push_char(s, crate::text::digit_char(v % 10));
    proof {
        assert(s@ =~= old(s)@ + milli_text(v as nat));
    }
}

fn push_opt_text(s: &mut String, o: &Option<String>)
    ensures
        final(s)@ == old(s)@ + opt_text(crate::metrics::opt_chars(*o)),
{
    match o {
        Some(t) => {
            s.append(t.as_str());
        },
        None => {
            assert(old(s)@ + Seq::<char>::empty() =~= old(s)@);
        },
    }
}

fn push_opt_decimal(s: &mut String, o: Option<u64>)
    ensures
        final(s)@ == old(s)@ + opt_decimal(nat_of_u64(o)),
{
    match o {
        Some(v) => push_decimal(s, v as u128),
        None => {
            assert(old(s)@ + Seq::<char>::empty() =~= old(s)@);
        },
    }
}

fn push_opt_milli(s: &mut String, o: Option<u64>)
    ensures
        final(s)@ == old(s)@ + opt_milli(nat_of_u64(o)),
{
    match o {
        Some(v) => push_milli(s, v),
        None => {
            assert(old(s)@ + Seq::<char>::empty() =~= old(s)@);
        },
    }
}

fn widen32(o: Option<u32>) -> (r: Option<u64>)
    ensures
        nat_of_u64(r) == nat_of_u32(o),
{
    match o {
        Some(v) => Some(v as u64),
        None => None,
    }
}

fn push_read_part(s: &mut String, r: &ReadMetrics)
    ensures
        final(s)@ == old(s)@ + row_read_part(r@),
{
    push_opt_text(s, &r.read_id);
    s.append("\t");
    push_decimal(s, r.length as u128);
    s.append("\t");
    push_opt_milli(s, widen32(r.quality));
    s.append("\t");
    proof {
        assert(s@ =~= old(s)@ + row_read_part(r@));
    }
}

fn push_alignment_part(s: &mut String, r: &ReadMetrics)
    ensures
        final(s)@ == old(s)@ + row_alignment_part(r@),
{
    push_opt_decimal(s, widen32(r.aligned_length));
    s.append("\t");
    push_opt_milli(s, widen32(r.aligned_quality));
    s.append("\t");
    let mq = match r.mapping_quality {
        Some(q) => Some(q as u64),
        None => None,
    };
    assert(nat_of_u64(mq) == nat_of_u8(r.mapping_quality));
    push_opt_decimal(s, mq);
    s.append("\t");
    push_opt_milli(s, widen32(r.percent_identity));
    s.append("\t");
    proof {
        assert(s@ =~= old(s)@ + row_alignment_part(r@));
    }
}

fn push_time(s: &mut String, t: Option<Timestamp>)
    ensures
        final(s)@ == old(s)@ + time_text(t),
{
    match t {
        Some(t) => {
            let text = rfc3339(t);
            s.append(text.as_str());
        },
        None => {
            assert(old(s)@ + Seq::<char>::empty() =~= old(s)@);
        },
    }
}

fn push_timing_part(s: &mut String, r: &ReadMetrics)
    ensures
        final(s)@ == old(s)@ + row_timing_part(r@),
{
    let ch = match r.channel_id {
        Some(c) => Some(c as u64),
        None => None,
    };
    assert(nat_of_u64(ch) == nat_of_u16(r.channel_id));
    push_opt_decimal(s, ch);
    s.append("\t");
    push_time(s, r.start_time);
    s.append("\t");
    push_opt_milli(s, r.duration);
    s.append("\t");
    proof {
        assert(s@ =~= old(s)@ + row_timing_part(r@));
    }
}

fn push_labels_part(s: &mut String, r: &ReadMetrics)
    ensures
        final(s)@ == old(s)@ + row_labels_part(r@),
{
    push_opt_text(s, &r.barcode);
    s.append("\t");
    push_opt_text(s, &r.run_id);
    s.append("\t");
    push_opt_text(s, &r.dataset);
    s.append("\n");
    proof {
        assert(s@ =~= old(s)@ + row_labels_part(r@));
    }
}

fn push_row(s: &mut String, r: &ReadMetrics)
    ensures
        final(s)@ == old(s)@ + tsv_row(r@),
{
    push_read_part(s, r);
    push_alignment_part(s, r);
    push_timing_part(s, r);
    push_labels_part(s, r);
    proof {
        assert(s@ =~= old(s)@ + tsv_row(r@));
    }
}

/// The column header of the tab-separated form.
pub open spec fn tsv_header() -> Seq<char> {
    "read_id\tlength\tquality\taligned_length\taligned_quality\tmapping_quality\tpercent_identity\tchannel_id\tstart_time\tduration\tbarcode\trun_id\tdataset\n"@
}

/// `h` hundredths as a decimal with two fractional digits.
pub open spec fn hundredths_text(h: nat) -> Seq<char> {
    decimal(h / 100) + seq!['.', digit((h / 10) % 10), digit(h % 10)]
}

/// `num / den` in hundredths, rounded half up.
pub open spec fn round_ratio(num: int, den: int) -> nat {
    ((200 * num + den) / (2 * den)) as nat
}

pub open spec fn unit(milli: bool) -> int {
    if milli {
        1000
    } else {
        1
    }
}

pub open spec fn mean_hundredths(st: StatsSummary, milli: bool) -> nat {
    if st.count == 0 {
        0
    } else {
        round_ratio(st.sum as int, st.count * unit(milli))
    }
}

pub open spec fn line_head(label: Seq<char>, st: StatsSummary, milli: bool) -> Seq<char> {
    "# "@ + label + " - count: "@ + decimal(st.count as nat) + ", mean: "@ + hundredths_text(
        mean_hundredths(st, milli),
    )
}

pub open spec fn line_middle(st: StatsSummary, milli: bool) -> Seq<char> {
    ", median: "@ + hundredths_text(round_ratio(st.median_quarters as int, 4 * unit(milli)))
        + ", min: "@ + hundredths_text(round_ratio(st.min as int, unit(milli))) + ", max: "@
        + hundredths_text(round_ratio(st.max as int, unit(milli)))
}

pub open spec fn line_tail(st: StatsSummary, milli: bool) -> Seq<char> {
    ", std_dev: "@ + hundredths_text(std_dev_hundredths(st, milli)) + ", q25: "@
        + hundredths_text(round_ratio(st.q25_quarters as int, 4 * unit(milli))) + ", q75: "@
        + hundredths_text(round_ratio(st.q75_quarters as int, 4 * unit(milli))) + "\n"@
}

/// One statistics line: the label, then count, mean, median, min, max,
/// standard deviation and quartiles with two decimals. With `milli` the
/// values are read as thousandths.
#[verifier::opaque]
pub open spec fn stats_line(label: Seq<char>, st: StatsSummary, milli: bool) -> Seq<char> {
    line_head(label, st, milli) + line_middle(st, milli) + line_tail(st, milli)
}

fn round_ratio_of(num: u128, den: u128) -> (r: u128)
    requires
        1 <= den < 0x1_0000_0000_0000_0000_0000_0000,
        num < 0x1_0000_0000_0000_0000_0000_0000,
    ensures
        r == round_ratio(num as int, den as int),
{
    (200 * num + den) / (2 * den)
}

fn push_hundredths(s: &mut String, h: u128)
    ensures
        final(s)@ == old(s)@ + hundredths_text(h as nat),
{
    push_decimal(s, h / 100);
    crate::text::push_char(s, '.');
    crate::text::push_char(s, crate::text::digit_char(((h / 10) % 10) as u64));
    crate::text::push_char(s, crate::text::digit_char((h % 10) as u64));
    proof {
        assert(s@ =~= old(s)@ + hundredths_text(h as nat));
    }
}

fn push_line_head(s: &mut String, label: &str, st: &StatsSummary, milli: bool)
    ensures
        consistent(*st) ==> final(s)@ == old(s)@ + line_head(label@, *st, milli),
{
    s.append("# ");
    s.append(label);
    s.append(" - count: ");
    push_decimal(s, st.count as u128);
    s.append(", mean: ");
    let u: u128 = if milli {
        1000
    } else {
        1
    };
    let mean = if st.count == 0 || st.sum > (st.count as u128) * 0xffff_ffff {
        0
    } else {
        assert(st.count * u <= 0xffff_ffff_ffff_ffff * 1000) by (nonlinear_arith)
            requires
                st.count <= 0xffff_ffff_ffff_ffff,
                u <= 1000,
        ;
        round_ratio_of(st.sum, (st.count as u128) * u)
    };
    push_hundredths(s, mean);
    proof {
        if consistent(*st) {
            assert(s@ =~= old(s)@ + line_head(label@, *st, milli));
        }
    }
}

fn push_line_middle(s: &mut String, st: &StatsSummary, milli: bool)
    ensures
        final(s)@ == old(s)@ + line_middle(*st, milli),
{
    let u: u128 = if milli {
        1000
    } else {
        1
    };
    s.append(", median: ");
    push_hundredths(s, round_ratio_of(st.median_quarters as u128, 4 * u));
    s.append(", min: ");
    push_hundredths(s, round_ratio_of(st.min as u128, u));
    s.append(", max: ");
    push_hundredths(s, round_ratio_of(st.max as u128, u));
    proof {
        assert(s@ =~= old(s)@ + line_middle(*st, milli));
    }
}

fn push_line_tail(s: &mut String, st: &StatsSummary, milli: bool)
    ensures
        consistent(*st) ==> final(s)@ == old(s)@ + line_tail(*st, milli),
{
    let u: u128 = if milli {
        1000
    } else {
        1
    };
    s.append(", std_dev: ");
    push_hundredths(s, st.std_dev_hundredths(milli) as u128);
    s.append(", q25: ");
    push_hundredths(s, round_ratio_of(st.q25_quarters as u128, 4 * u));
    s.append(", q75: ");
    push_hundredths(s, round_ratio_of(st.q75_quarters as u128, 4 * u));
    s.append("\n");
    proof {
        if consistent(*st) {
            assert(s@ =~= old(s)@ + line_tail(*st, milli));
        }
    }
}

fn push_stats_line(s: &mut String, label: &str, st: &StatsSummary, milli: bool)
    ensures
        consistent(*st) ==> final(s)@ == old(s)@ + stats_line(label@, *st, milli),
{
    push_line_head(s, label, st, milli);
    push_line_middle(s, st, milli);
    push_line_tail(s, st, milli);
    proof {
        reveal(stats_line);
        if consistent(*st) {
            assert(s@ =~= old(s)@ + stats_line(label@, *st, milli));
        }
    }
}

pub open spec fn optional_line(label: Seq<char>, st: Option<StatsSummary>, milli: bool) -> Seq<
    char,
> {
    match st {
        Some(x) => stats_line(label, x, milli),
        None => Seq::empty(),
    }
}

pub open spec fn optional_consistent(st: Option<StatsSummary>) -> bool {
    match st {
        Some(x) => consistent(x),
        None => true,
    }
}

fn push_optional_line(s: &mut String, label: &str, st: &Option<StatsSummary>, milli: bool)
    ensures
        optional_consistent(*st) ==> final(s)@ == old(s)@ + optional_line(label@, *st, milli),
{
    match st {
        Some(x) => push_stats_line(s, label, x, milli),
        None => {
            assert(old(s)@ + Seq::<char>::empty() =~= old(s)@);
        },
    }
}

/// The statistics block that follows the rows.
pub open spec fn summary_block(sm: MetricsSummary) -> Seq<char> {
    "\n# Summary Statistics\n"@ + "# Total reads: "@ + decimal(sm.read_count as nat) + "\n"@
        + stats_line("Length stats"@, sm.length_stats, false) + optional_line(
        "Quality stats"@,
        sm.quality_stats,
        true,
    ) + optional_line("Mapping quality stats"@, sm.mapping_quality_stats, false) + optional_line(
        "Percent identity stats"@,
        sm.percent_identity_stats,
        true,
    )
}

pub open spec fn summary_consistent(sm: MetricsSummary) -> bool {
    &&& consistent(sm.length_stats)
    &&& optional_consistent(sm.quality_stats)
    &&& optional_consistent(sm.mapping_quality_stats)
    &&& optional_consistent(sm.percent_identity_stats)
}

fn push_summary_block(s: &mut String, sm: &MetricsSummary)
    ensures
        summary_consistent(*sm) ==> final(s)@ == old(s)@ + summary_block(*sm),
{
    s.append("\n# Summary Statistics\n");
    s.append("# Total reads: ");
    push_decimal(s, sm.read_count as u128);
    s.append("\n");
    push_stats_line(s, "Length stats", &sm.length_stats, false);
    push_optional_line(s, "Quality stats", &sm.quality_stats, true);
    push_optional_line(s, "Mapping quality stats", &sm.mapping_quality_stats, false);
    push_optional_line(s, "Percent identity stats", &sm.percent_identity_stats, true);
    proof {
        if summary_consistent(*sm) {
            assert(s@ =~= old(s)@ + summary_block(*sm));
        }
    }
}

/// The tab-separated form: a header, one row per record, and the
/// statistics block.
pub open spec fn tsv_text(c: MetricsCollection) -> Seq<char> {
    tsv_header() + tsv_rows(views_of(c.reads@)) + summary_block(c.summary)
}

proof fn lemma_projection_lengths(rs: Seq<ReadView>)
    ensures
        lengths_of(rs).len() == rs.len(),
        qualities_of(rs).len() <= rs.len(),
        mapping_qualities_of(rs).len() <= rs.len(),
        identities_of(rs).len() <= rs.len(),
    decreases rs.len(),
{
    if rs.len() > 0 {
        lemma_projection_lengths(rs.drop_last());
    }
}

proof fn lemma_summary_consistent(sm: MetricsSummary, rs: Seq<ReadView>)
    requires
        summarizes(sm, rs),
        rs.len() <= usize::MAX,
    ensures
        summary_consistent(sm),
{
    lemma_projection_lengths(rs);
    lemma_stats_consistent(lengths_of(rs));
    lemma_stats_consistent(qualities_of(rs));
    lemma_stats_consistent(mapping_qualities_of(rs));
    lemma_stats_consistent(identities_of(rs));
}

impl MetricsCollection {
    /// The collection as tab-separated text.
    pub fn to_tsv(&self) -> (r: Result<String, NanogetError>)
        ensures
            r is Ok,
            self.wf() ==> (r matches Ok(t) && t@ == tsv_text(*self)),
    {
        let mut out = self.tsv_records();
        push_summary_block(&mut out, &self.summary);
        proof {
            if self.wf() {
                lemma_summary_consistent(self.summary, views_of(self.reads@));
            }
        }
        Ok(out)
    }

    /// The header and one row per record.
    fn tsv_records(&self) -> (r: String)
        ensures
            r@ == tsv_header() + tsv_rows(views_of(self.reads@)),
    {
        let ghost vs = views_of(self.reads@);
        let mut out = String::from_str(
            "read_id\tlength\tquality\taligned_length\taligned_quality\tmapping_quality\tpercent_identity\tchannel_id\tstart_time\tduration\tbarcode\trun_id\tdataset\n",
        );
        let mut i: usize = 0;
        while i < self.reads.len()
            invariant
                vs == views_of(self.reads@),
                i <= self.reads@.len(),
                out@ == tsv_header() + tsv_rows(vs.take(i as int)),
            decreases self.reads@.len() - i,
        {
            push_row(&mut out, &self.reads[i]);
            proof {
                assert(vs.take(i as int + 1).drop_last() =~= vs.take(i as int));
                assert(out@ =~= tsv_header() + tsv_rows(vs.take(i as int + 1)));
            }
            i = i + 1;
        }
        proof {
            assert(vs.take(vs.len() as int) =~= vs);
        }
        out
    }
}

} // verus!
