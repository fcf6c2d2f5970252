//! The normalised read record and the summary computed over a population
//! of records.
use crate::stats::{stats_of, StatsSummary};
use std::collections::HashMap;
use vstd::prelude::*;

verus! {

broadcast use vstd::std_specs::hash::group_hash_axioms;

/// A point in time: whole seconds since the Unix epoch and the sub-second
/// part in nanoseconds.
#[derive(Clone, Copy, Debug, PartialEq, Eq, Structural)]
pub struct Timestamp {
    pub secs: i64,
    pub nanos: u32,
}

/// One normalised read or alignment observation.
///
/// Real-valued attributes are held exactly as integers: `quality` and
/// `aligned_quality` in thousandths of a Phred unit, `percent_identity` in
/// thousandths of a percent, `duration` in milliseconds. An absent field
/// means that the source format does not report the attribute.
#[derive(Debug)]
pub struct ReadMetrics {
    pub read_id: Option<String>,
    pub length: u32,
    pub quality: Option<u32>,
    pub aligned_length: Option<u32>,
    pub aligned_quality: Option<u32>,
    pub mapping_quality: Option<u8>,
    pub percent_identity: Option<u32>,
    pub channel_id: Option<u16>,
    pub start_time: Option<Timestamp>,
    pub duration: Option<u64>,
    pub barcode: Option<String>,
    pub run_id: Option<String>,
    pub dataset: Option<String>,
}

/// The mathematical content of a `ReadMetrics`, with strings as character
/// sequences.
pub ghost struct ReadView {
    pub read_id: Option<Seq<char>>,
    pub length: u32,
    pub quality: Option<u32>,
    pub aligned_length: Option<u32>,
    pub aligned_quality: Option<u32>,
    pub mapping_quality: Option<u8>,
    pub percent_identity: Option<u32>,
    pub channel_id: Option<u16>,
    pub start_time: Option<Timestamp>,
    pub duration: Option<u64>,
    pub barcode: Option<Seq<char>>,
    pub run_id: Option<Seq<char>>,
    pub dataset: Option<Seq<char>>,
}

pub open spec fn opt_chars(o: Option<String>) -> Option<Seq<char>> {
    match o {
        Some(s) => Some(s@),
        None => None,
    }
}

impl View for ReadMetrics {
    type V = ReadView;

    open spec fn view(&self) -> ReadView {
        ReadView {
            read_id: opt_chars(self.read_id),
            length: self.length,
            quality: self.quality,
            aligned_length: self.aligned_length,
            aligned_quality: self.aligned_quality,
            mapping_quality: self.mapping_quality,
            percent_identity: self.percent_identity,
            channel_id: self.channel_id,
            start_time: self.start_time,
            duration: self.duration,
            barcode: opt_chars(self.barcode),
            run_id: opt_chars(self.run_id),
            dataset: opt_chars(self.dataset),
        }
    }
}

/// A record with the given identifier and length and nothing else.
pub open spec fn bare_read(read_id: Option<Seq<char>>, length: u32) -> ReadView {
    ReadView {
        read_id,
        length,
        quality: None,
        aligned_length: None,
        aligned_quality: None,
        mapping_quality: None,
        percent_identity: None,
        channel_id: None,
        start_time: None,
        duration: None,
        barcode: None,
        run_id: None,
        dataset: None,
    }
}

/// The contents of a sequence of strings.
pub open spec fn texts(v: Seq<String>) -> Seq<Seq<char>> {
    v.map_values(|s: String| s@)
}

pub open spec fn views_of(v: Seq<ReadMetrics>) -> Seq<ReadView> {
    v.map_values(|r: ReadMetrics| r@)
}

fn clone_opt_string(o: &Option<String>) -> (r: Option<String>)
    ensures
        opt_chars(r) == opt_chars(*o),
{
    match o {
        Some(s) => Some(s.clone()),
        None => None,
    }
}

impl ReadMetrics {
    /// A record holding only an identifier and a length.
    pub fn new(read_id: Option<String>, length: u32) -> (r: ReadMetrics)
        ensures
            r@ == bare_read(opt_chars(read_id), length),
    {
        ReadMetrics {
            read_id,
            length,
            quality: None,
            aligned_length: None,
            aligned_quality: None,
            mapping_quality: None,
            percent_identity: None,
            channel_id: None,
            start_time: None,
            duration: None,
            barcode: None,
            run_id: None,
            dataset: None,
        }
    }

    /// The same record with its average quality (thousandths of a Phred unit) set.
    pub fn with_quality(self, quality: u32) -> (r: ReadMetrics)
        ensures
            r@ == (ReadView { quality: Some(quality), ..self@ }),
    {
        let mut r = self;
        r.quality = Some(quality);
        r
    }

    /// The same record with its alignment attributes set.
    pub fn with_alignment(
        self,
        aligned_length: u32,
        aligned_quality: Option<u32>,
        mapping_quality: Option<u8>,
        percent_identity: Option<u32>,
    ) -> (r: ReadMetrics)
        ensures
            r@ == (ReadView {
                aligned_length: Some(aligned_length),
                aligned_quality,
                mapping_quality,
                percent_identity,
                ..self@
            }),
    {
        let mut r = self;
        r.aligned_length = Some(aligned_length);
        r.aligned_quality = aligned_quality;
        r.mapping_quality = mapping_quality;
        r.percent_identity = percent_identity;
        r
    }

    /// The same record with its sequencing-run metadata set.
    pub fn with_sequencing_metadata(
        self,
        channel_id: Option<u16>,
        start_time: Option<Timestamp>,
        duration: Option<u64>,
    ) -> (r: ReadMetrics)
        ensures
            r@ == (ReadView { channel_id, start_time, duration, ..self@ }),
    {
        let mut r = self;
        r.channel_id = channel_id;
        r.start_time = start_time;
        r.duration = duration;
        r
    }

    /// A copy of this record.
    pub fn duplicate(&self) -> (r: ReadMetrics)
        ensures
            r@ == self@,
    {
        ReadMetrics {
            read_id: clone_opt_string(&self.read_id),
            length: self.length,
            quality: self.quality,
            aligned_length: self.aligned_length,
            aligned_quality: self.aligned_quality,
            mapping_quality: self.mapping_quality,
            percent_identity: self.percent_identity,
            channel_id: self.channel_id,
            start_time: self.start_time,
            duration: self.duration,
            barcode: clone_opt_string(&self.barcode),
            run_id: clone_opt_string(&self.run_id),
            dataset: clone_opt_string(&self.dataset),
        }
    }
}

pub open spec fn lengths_of(reads: Seq<ReadView>) -> Seq<u32>
    decreases reads.len(),
{
    if reads.len() == 0 {
        Seq::empty()
    } else {
        lengths_of(reads.drop_last()).push(reads.last().length)
    }
}

/// The defined qualities, in record order.
pub open spec fn qualities_of(reads: Seq<ReadView>) -> Seq<u32>
    decreases reads.len(),
{
    if reads.len() == 0 {
        Seq::empty()
    } else {
        let rest = qualities_of(reads.drop_last());
        match reads.last().quality {
            Some(q) => rest.push(q),
            None => rest,
        }
    }
}

/// The defined mapping qualities, in record order.
pub open spec fn mapping_qualities_of(reads: Seq<ReadView>) -> Seq<u32>
    decreases reads.len(),
{
    if reads.len() == 0 {
        Seq::empty()
    } else {
        let rest = mapping_qualities_of(reads.drop_last());
        match reads.last().mapping_quality {
            Some(q) => rest.push(q as u32),
            None => rest,
        }
    }
}

/// The defined percent identities, in record order.
pub open spec fn identities_of(reads: Seq<ReadView>) -> Seq<u32>
    decreases reads.len(),
{
    if reads.len() == 0 {
        Seq::empty()
    } else {
        let rest = identities_of(reads.drop_last());
        match reads.last().percent_identity {
            Some(p) => rest.push(p),
            None => rest,
        }
    }
}

/// How many records carry channel `c`.
pub open spec fn channel_count(reads: Seq<ReadView>, c: u16) -> nat
    decreases reads.len(),
{
    if reads.len() == 0 {
        0
    } else {
        channel_count(reads.drop_last(), c) + if reads.last().channel_id == Some(c) {
            1nat
        } else {
            0nat
        }
    }
}

/// How many records carry barcode `b`.
pub open spec fn barcode_count(reads: Seq<ReadView>, b: Seq<char>) -> nat
    decreases reads.len(),
{
    if reads.len() == 0 {
        0
    } else {
        barcode_count(reads.drop_last(), b) + if reads.last().barcode == Some(b) {
            1nat
        } else {
            0nat
        }
    }
}

/// No summary for values that no record defines.
pub open spec fn optional_stats(s: Seq<u32>) -> Option<StatsSummary> {
    if s.len() == 0 {
        None
    } else {
        Some(stats_of(s))
    }
}

/// `d` counts the records of each channel, and is absent when no record
/// carries a channel.
pub open spec fn channel_distribution_matches(
    d: Option<HashMap<u16, usize>>,
    reads: Seq<ReadView>,
) -> bool {
    &&& (d is None <==> forall|c: u16| channel_count(reads, c) == 0)
    &&& d matches Some(m) ==> forall|c: u16|
        (#[trigger] m@.contains_key(c) <==> channel_count(reads, c) > 0) && (m@.contains_key(c)
            ==> m@[c] == channel_count(reads, c))
}

/// `d` lists each barcode that occurs once, with its number of records, and
/// is absent when no record carries a barcode.
pub open spec fn barcode_distribution_matches(
    d: Option<Vec<(String, usize)>>,
    reads: Seq<ReadView>,
) -> bool {
    &&& (d is None <==> forall|b: Seq<char>| barcode_count(reads, b) == 0)
    &&& d matches Some(v) ==> {
        &&& forall|i: int|
            0 <= i < v@.len() ==> #[trigger] v@[i].1 == barcode_count(reads, v@[i].0@) && v@[i].1
                > 0
        &&& forall|i: int, j: int|
            0 <= i < j < v@.len() ==> #[trigger] v@[i].0@ != #[trigger] v@[j].0@
        &&& forall|b: Seq<char>|
            #[trigger] barcode_count(reads, b) > 0 ==> exists|i: int|
                0 <= i < v@.len() && #[trigger] v@[i].0@ == b
    }
}

/// Summary of a population of records.
pub struct MetricsSummary {
    pub read_count: usize,
    pub length_stats: StatsSummary,
    pub quality_stats: Option<StatsSummary>,
    pub mapping_quality_stats: Option<StatsSummary>,
    pub percent_identity_stats: Option<StatsSummary>,
    pub channel_distribution: Option<HashMap<u16, usize>>,
    pub barcode_distribution: Option<Vec<(String, usize)>>,
}

/// `s` is the summary of `reads`.
pub open spec fn summarizes(s: MetricsSummary, reads: Seq<ReadView>) -> bool {
    &&& s.read_count == reads.len()
    &&& s.length_stats == stats_of(lengths_of(reads))
    &&& s.quality_stats == optional_stats(qualities_of(reads))
    &&& s.mapping_quality_stats == optional_stats(mapping_qualities_of(reads))
    &&& s.percent_identity_stats == optional_stats(identities_of(reads))
    &&& channel_distribution_matches(s.channel_distribution, reads)
    &&& barcode_distribution_matches(s.barcode_distribution, reads)
}

proof fn lemma_channel_count_bound(reads: Seq<ReadView>, c: u16)
    ensures
        channel_count(reads, c) <= reads.len(),
    decreases reads.len(),
{
    if reads.len() > 0 {
        lemma_channel_count_bound(reads.drop_last(), c);
    }
}

proof fn lemma_barcode_count_bound(reads: Seq<ReadView>, b: Seq<char>)
    ensures
        barcode_count(reads, b) <= reads.len(),
    decreases reads.len(),
{
    if reads.len() > 0 {
        lemma_barcode_count_bound(reads.drop_last(), b);
    }
}

fn position_of(names: &Vec<String>, b: &String) -> (r: Option<usize>)
    ensures
        match r {
            Some(j) => j < names@.len() && names@[j as int]@ == b@,
            None => forall|j: int| 0 <= j < names@.len() ==> names@[j]@ != b@,
        },
{
    let mut j: usize = 0;
    while j < names.len()
        invariant
            j <= names@.len(),
            forall|k: int| 0 <= k < j ==> names@[k]@ != b@,
        decreases names@.len() - j,
    {
        if names[j] == *b {
            return Some(j);
        }
        j = j + 1;
    }
    None
}

spec fn barcode_tally(names: Seq<String>, counts: Seq<usize>, reads: Seq<ReadView>) -> bool {
    &&& names.len() == counts.len()
    &&& forall|k: int|
        0 <= k < counts.len() ==> #[trigger] counts[k] == barcode_count(reads, names[k]@)
            && counts[k] > 0
    &&& forall|k: int, l: int| 0 <= k < l < names.len() ==> #[trigger] names[k]@ != #[trigger] names[l]@
    &&& forall|b: Seq<char>|
        #[trigger] barcode_count(reads, b) > 0 ==> exists|k: int|
            0 <= k < names.len() && #[trigger] names[k]@ == b
}

spec fn channel_tally(m: Map<u16, usize>, reads: Seq<ReadView>) -> bool {
    forall|c: u16|
        (#[trigger] m.contains_key(c) <==> channel_count(reads, c) > 0) && (m.contains_key(c)
            ==> m[c] == channel_count(reads, c))
}

proof fn lemma_counts_push(prev: Seq<ReadView>, r: ReadView)
    ensures
        forall|b: Seq<char>|
            #[trigger] barcode_count(prev.push(r), b) == barcode_count(prev, b) + if r.barcode
                == Some(b) {
                1nat
            } else {
                0nat
            },
        forall|c: u16|
            #[trigger] channel_count(prev.push(r), c) == channel_count(prev, c) + if r.channel_id
                == Some(c) {
                1nat
            } else {
                0nat
            },
{
    assert(prev.push(r).drop_last() =~= prev);
}

fn tally_barcode(
    names: &mut Vec<String>,
    counts: &mut Vec<usize>,
    b: &String,
    Ghost(prev): Ghost<Seq<ReadView>>,
    Ghost(r): Ghost<ReadView>,
)
    requires
        barcode_tally(old(names)@, old(counts)@, prev),
        r.barcode == Some(b@),
        prev.len() < usize::MAX,
    ensures
        barcode_tally(final(names)@, final(counts)@, prev.push(r)),
{
    proof {
        lemma_counts_push(prev, r);
    }
    let ghost next = prev.push(r);
    let ghost old_names = names@;
    match position_of(names, b) {
        Some(j) => {
            proof {
                lemma_barcode_count_bound(prev, b@);
            }
            let c = counts[j] + 1;
            counts.set(j, c);
            proof {
                assert forall|k: int| 0 <= k < counts@.len() implies #[trigger] counts@[k]
                    == barcode_count(next, names@[k]@) && counts@[k] > 0 by {
                    if k != j {
                        assert(old_names[k]@ != old_names[j as int]@);
                    }
                }
                assert forall|x: Seq<char>| #[trigger] barcode_count(next, x) > 0 implies exists|
                    k: int,
                | 0 <= k < names@.len() && #[trigger] names@[k]@ == x by {
                    if barcode_count(prev, x) == 0 {
                        assert(names@[j as int]@ == x);
                    }
                }
            }
        },
        None => {
            names.push(b.clone());
            counts.push(1);
            proof {
                let last = old_names.len() as int;
                assert(barcode_count(prev, b@) == 0) by {
                    if barcode_count(prev, b@) > 0 {
                        let k = choose|k: int| 0 <= k < old_names.len() && #[trigger] old_names[k]@ == b@;
                    }
                }
                assert forall|k: int| 0 <= k < counts@.len() implies #[trigger] counts@[k]
                    == barcode_count(next, names@[k]@) && counts@[k] > 0 by {
                    if k < last {
                        assert(names@[k] == old_names[k]);
                    }
                }
                assert forall|k: int, l: int| 0 <= k < l < names@.len() implies #[trigger] names@[k]@
                    != #[trigger] names@[l]@ by {
                    if l < last {
                        assert(names@[k] == old_names[k] && names@[l] == old_names[l]);
                    }
                }
                assert forall|x: Seq<char>| #[trigger] barcode_count(next, x) > 0 implies exists|
                    k: int,
                | 0 <= k < names@.len() && #[trigger] names@[k]@ == x by {
                    if barcode_count(prev, x) > 0 {
                        let k = choose|k: int| 0 <= k < old_names.len() && #[trigger] old_names[k]@ == x;
                        assert(names@[k] == old_names[k]);
                    } else {
                        assert(names@[last]@ == x);
                    }
                }
            }
        },
    }
}

fn tally_channel(
    channels: &mut HashMap<u16, usize>,
    c: u16,
    Ghost(prev): Ghost<Seq<ReadView>>,
    Ghost(r): Ghost<ReadView>,
)
    requires
        channel_tally(old(channels)@, prev),
        r.channel_id == Some(c),
        prev.len() < usize::MAX,
    ensures
        channel_tally(final(channels)@, prev.push(r)),
{
    proof {
        lemma_counts_push(prev, r);
        lemma_channel_count_bound(prev, c);
    }
    let seen: usize = match channels.get(&c) {
        Some(k) => *k,
        None => 0,
    };
    channels.insert(c, seen + 1);
}

impl MetricsSummary {
    /// The summary of `reads`: the count, statistics of every numeric
    /// attribute that at least one record defines (over the defining records
    /// only), and the channel and barcode distributions.
    pub fn from_reads(reads: &[ReadMetrics]) -> (r: MetricsSummary)
        ensures
            summarizes(r, views_of(reads@)),
    {
        let ghost vs = views_of(reads@);
        let n = reads.len();
        let mut lengths: Vec<u32> = Vec::new();
        let mut qualities: Vec<u32> = Vec::new();
        let mut mapqs: Vec<u32> = Vec::new();
        let mut identities: Vec<u32> = Vec::new();
        let mut channels: HashMap<u16, usize> = HashMap::new();
        let mut names: Vec<String> = Vec::new();
        let mut counts: Vec<usize> = Vec::new();
        let mut i: usize = 0;
        while i < n
            invariant
                n == reads@.len(),
                vs == views_of(reads@),
                i <= n,
                lengths@ == lengths_of(vs.take(i as int)),
                qualities@ == qualities_of(vs.take(i as int)),
                mapqs@ == mapping_qualities_of(vs.take(i as int)),
                identities@ == identities_of(vs.take(i as int)),
                channel_tally(channels@, vs.take(i as int)),
                barcode_tally(names@, counts@, vs.take(i as int)),
            decreases n - i,
        {
            let read = &reads[i];
            let ghost prev = vs.take(i as int);
            proof {
                assert(vs.take(i as int + 1) =~= prev.push(read@));
            }
            lengths.push(read.length);
            if let Some(q) = read.quality {
                qualities.push(q);
            }
            if let Some(q) = read.mapping_quality {
                mapqs.push(q as u32);
            }
            if let Some(p) = read.percent_identity {
                identities.push(p);
            }
            if let Some(c) = read.channel_id {
                tally_channel(&mut channels, c, Ghost(prev), Ghost(read@));
            }
            if let Some(b) = &read.barcode {
                tally_barcode(&mut names, &mut counts, b, Ghost(prev), Ghost(read@));
            }
            proof {
                lemma_counts_push(prev, read@);
                assert(prev.push(read@).drop_last() =~= prev);
            }
            i = i + 1;
        }
        proof {
            assert(vs.take(n as int) =~= vs);
        }
        let channel_distribution = if channels.is_empty() {
            proof {
                assert forall|c: u16| channel_count(vs, c) == 0 by {
                    if channel_count(vs, c) > 0 {
                        assert(channels@.contains_key(c));
                        assert(channels@.dom().contains(c));
                    }
                }
            }
            None
        } else {
            proof {
                let c = channels@.dom().choose();
                assert(channels@.dom().contains(c)) by {
                    assert(channels@.dom() != Set::<u16>::empty());
                    if !channels@.dom().contains(c) {
                        assert(channels@.dom() =~= Set::<u16>::empty());
                    }
                }
                assert(channels@.contains_key(c));
            }
            Some(channels)
        };
        let mut barcodes: Vec<(String, usize)> = Vec::new();
        let mut k: usize = 0;
        while k < names.len()
            invariant
                k <= names@.len(),
                names@.len() == counts@.len(),
                barcodes@.len() == k,
                forall|l: int|
                    0 <= l < k ==> #[trigger] barcodes@[l].0@ == names@[l]@ && barcodes@[l].1
                        == counts@[l],
            decreases names@.len() - k,
        {
            barcodes.push((names[k].clone(), counts[k]));
            k = k + 1;
        }
        proof {
            assert forall|b: Seq<char>| #[trigger] barcode_count(vs, b) > 0 implies exists|l: int|
                0 <= l < barcodes@.len() && #[trigger] barcodes@[l].0@ == b by {
                let l = choose|l: int| 0 <= l < names@.len() && #[trigger] names@[l]@ == b;
                assert(barcodes@[l].0@ == names@[l]@);
            }
            assert forall|l: int, m: int| 0 <= l < m < barcodes@.len() implies #[trigger] barcodes@[l].0@
                != #[trigger] barcodes@[m].0@ by {
                assert(names@[l]@ != names@[m]@);
            }
            if names@.len() > 0 {
                assert(counts@[0] == barcode_count(vs, names@[0]@) && counts@[0] > 0);
            }
        }
        let barcode_distribution = if barcodes.len() == 0 {
            None
        } else {
            Some(barcodes)
        };
        MetricsSummary {
            read_count: n,
            length_stats: StatsSummary::from_values(lengths.as_slice()),
            quality_stats: if qualities.len() == 0 {
                None
            } else {
                Some(StatsSummary::from_values(qualities.as_slice()))
            },
            mapping_quality_stats: if mapqs.len() == 0 {
                None
            } else {
                Some(StatsSummary::from_values(mapqs.as_slice()))
            },
            percent_identity_stats: if identities.len() == 0 {
                None
            } else {
                Some(StatsSummary::from_values(identities.as_slice()))
            },
            channel_distribution,
            barcode_distribution,
        }
    }
}

} // verus!
