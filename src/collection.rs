//! A population of records together with the summary derived from it.
use crate::metrics::{
    lengths_of, summarizes, texts, views_of, MetricsSummary, ReadMetrics, ReadView,
};
use crate::stats::{lemma_sorted_of, sort_ascending, sorted_of};
use crate::text::{chars_of, decimal, push_decimal};
use vstd::prelude::*;

verus! {

broadcast use vstd::seq_lib::group_to_multiset_ensures;

/// The record with its dataset label set to `d`.
pub open spec fn with_dataset(r: ReadView, d: Seq<char>) -> ReadView {
    ReadView { dataset: Some(d), ..r }
}

pub open spec fn tagged(rs: Seq<ReadView>, d: Seq<char>) -> Seq<ReadView> {
    rs.map_values(|r: ReadView| with_dataset(r, d))
}

pub open spec fn names_view(names: Option<Vec<String>>) -> Option<Seq<Seq<char>>> {
    match names {
        Some(v) => Some(texts(v@)),
        None => None,
    }
}

/// The label of the `i`-th source: the `i`-th given name when there is one,
/// else `dataset_<i>`.
pub open spec fn dataset_label(names: Option<Seq<Seq<char>>>, i: nat) -> Seq<char> {
    if names is Some && i < names->0.len() {
        names->0[i as int]
    } else {
        "dataset_"@ + decimal(i)
    }
}

/// The records of the sources `cs` in order, each tagged with its source's
/// label when `track` holds.
pub open spec fn combined(
    cs: Seq<Seq<ReadView>>,
    track: bool,
    names: Option<Seq<Seq<char>>>,
) -> Seq<ReadView>
    decreases cs.len(),
{
    if cs.len() == 0 {
        Seq::empty()
    } else {
        let last = if track {
            tagged(cs.last(), dataset_label(names, (cs.len() - 1) as nat))
        } else {
            cs.last()
        };
        combined(cs.drop_last(), track, names) + last
    }
}

/// Total number of records over the sources.
pub open spec fn total_len(cs: Seq<Seq<ReadView>>) -> nat
    decreases cs.len(),
{
    if cs.len() == 0 {
        0
    } else {
        total_len(cs.drop_last()) + cs.last().len()
    }
}

pub open spec fn collection_views(cs: Seq<MetricsCollection>) -> Seq<Seq<ReadView>> {
    cs.map_values(|c: MetricsCollection| views_of(c.reads@))
}

/// The records whose length is at least `min`, in order.
pub open spec fn length_filter(rs: Seq<ReadView>, min: u32) -> Seq<ReadView>
    decreases rs.len(),
{
    if rs.len() == 0 {
        Seq::empty()
    } else {
        let rest = length_filter(rs.drop_last(), min);
        if rs.last().length >= min {
            rest.push(rs.last())
        } else {
            rest
        }
    }
}

/// The records that have a quality of at least `min`, in order.
pub open spec fn quality_filter(rs: Seq<ReadView>, min: u32) -> Seq<ReadView>
    decreases rs.len(),
{
    if rs.len() == 0 {
        Seq::empty()
    } else {
        let rest = quality_filter(rs.drop_last(), min);
        if rs.last().quality is Some && rs.last().quality->0 >= min {
            rest.push(rs.last())
        } else {
            rest
        }
    }
}

/// The records labelled with dataset `d`, in order.
pub open spec fn dataset_filter(rs: Seq<ReadView>, d: Seq<char>) -> Seq<ReadView>
    decreases rs.len(),
{
    if rs.len() == 0 {
        Seq::empty()
    } else {
        let rest = dataset_filter(rs.drop_last(), d);
        if rs.last().dataset == Some(d) {
            rest.push(rs.last())
        } else {
            rest
        }
    }
}

/// The length at index `percentile * (n - 1) / 100` (rounded down) of the
/// ascending lengths, or zero when there is no such index.
pub open spec fn length_threshold(lengths: Seq<u32>, percentile: u32) -> u32 {
    let n = lengths.len();
    if n == 0 {
        0
    } else {
        let index = percentile * (n - 1) / 100;
        if index < n {
            sorted_of(lengths)[index as int]
        } else {
            0
        }
    }
}

/// Records with the summary of exactly those records.
pub struct MetricsCollection {
    pub reads: Vec<ReadMetrics>,
    pub summary: MetricsSummary,
}

impl MetricsCollection {
    /// The summary describes the records.
    pub open spec fn wf(&self) -> bool {
        summarizes(self.summary, views_of(self.reads@))
    }

    /// The collection of `reads`, with their summary.
    pub fn new(reads: Vec<ReadMetrics>) -> (r: MetricsCollection)
        ensures
            r.reads@ == reads@,
            r.wf(),
    {
        let summary = MetricsSummary::from_reads(reads.as_slice());
        MetricsCollection { reads, summary }
    }
}

fn is_track(method: &str) -> (r: bool)
    ensures
        r == (method@ == "track"@),
{
    let m = chars_of(method);
    let t = chars_of("track");
    same_chars(&m, &t)
}

/// Whether `a` and `b` hold the same characters.
pub fn same_chars(a: &Vec<char>, b: &Vec<char>) -> (r: bool)
    ensures
        r == (a@ == b@),
{
    if a.len() != b.len() {
        return false;
    }
    let mut i: usize = 0;
    while i < a.len()
        invariant
            a@.len() == b@.len(),
            i <= a@.len(),
            forall|k: int| 0 <= k < i ==> a@[k] == b@[k],
        decreases a@.len() - i,
    {
        if a[i] != b[i] {
            return false;
        }
        i = i + 1;
    }
    assert(a@ =~= b@);
    true
}

fn label_for(names: &Option<Vec<String>>, i: usize) -> (r: String)
    ensures
        r@ == dataset_label(names_view(*names), i as nat),
{
    match names {
        Some(v) => {
            if i < v.len() {
                return v[i].clone();
            }
        },
        None => {},
    }
    let mut s = String::from_str("dataset_");
    push_decimal(&mut s, i as u128);
    s
}

/// Combining keeps every record: the result has as many records as the
/// sources together.
pub proof fn lemma_combined_len(cs: Seq<Seq<ReadView>>, track: bool, names: Option<Seq<Seq<char>>>)
    ensures
        combined(cs, track, names).len() == total_len(cs),
    decreases cs.len(),
{
    if cs.len() > 0 {
        lemma_combined_len(cs.drop_last(), track, names);
    }
}

proof fn lemma_total_len_prefix(cs: Seq<Seq<ReadView>>, k: int)
    requires
        0 <= k < cs.len(),
    ensures
        total_len(cs.take(k)) + cs[k].len() <= total_len(cs),
    decreases cs.len(),
{
    if k == cs.len() - 1 {
        assert(cs.take(k) =~= cs.drop_last());
    } else {
        lemma_total_len_prefix(cs.drop_last(), k);
        assert(cs.drop_last().take(k) =~= cs.take(k));
    }
}

/// Combining loses and reorders nothing: the `j`-th record of the `k`-th
/// source stands at position `j` after all records of the earlier sources;
/// with the plain policy it is unchanged, with tracking it carries the
/// source's label as its dataset.
pub proof fn lemma_combine_keeps_sources(
    cs: Seq<Seq<ReadView>>,
    names: Option<Seq<Seq<char>>>,
    k: int,
    j: int,
)
    requires
        0 <= k < cs.len(),
        0 <= j < cs[k].len(),
    ensures
        total_len(cs.take(k)) + j < total_len(cs),
        combined(cs, false, names).len() == total_len(cs),
        combined(cs, true, names).len() == total_len(cs),
        combined(cs, false, names)[total_len(cs.take(k)) + j] == cs[k][j],
        combined(cs, true, names)[total_len(cs.take(k)) + j] == with_dataset(
            cs[k][j],
            dataset_label(names, k as nat),
        ),
    decreases cs.len(),
{
    lemma_total_len_prefix(cs, k);
    lemma_combined_len(cs, false, names);
    lemma_combined_len(cs, true, names);
    let prefix = cs.drop_last();
    lemma_combined_len(prefix, false, names);
    lemma_combined_len(prefix, true, names);
    if k == cs.len() - 1 {
        assert(cs.take(k) =~= prefix);
    } else {
        lemma_combine_keeps_sources(prefix, names, k, j);
        assert(prefix.take(k) =~= cs.take(k));
    }
}

fn append_tagged(all: &mut Vec<ReadMetrics>, reads: Vec<ReadMetrics>, label: &String)
    ensures
        views_of(final(all)@) == views_of(old(all)@) + tagged(views_of(reads@), label@),
{
    let ghost start = views_of(all@);
    for r in it: reads.into_iter()
        invariant
            views_of(all@) == start + tagged(views_of(it.seq().take(it.index() as int)), label@),
            it.seq() == reads@,
    {
        let mut t = r;
        t.dataset = Some(label.clone());
        let ghost before = all@;
        all.push(t);
        proof {
            let done = it.seq().take(it.index() as int + 1);
            assert(done =~= it.seq().take(it.index() as int).push(r));
            assert(views_of(all@) =~= views_of(before).push(t@));
            assert(tagged(views_of(done), label@) =~= tagged(
                views_of(it.seq().take(it.index() as int)),
                label@,
            ).push(with_dataset(r@, label@)));
        }
    }
    proof {
        assert(reads@.take(reads@.len() as int) =~= reads@);
    }
}

impl MetricsCollection {
    /// Merges the collections: with method `track`, each record of the `i`-th
    /// collection is first labelled with the `i`-th name, or `dataset_<i>`
    /// where no name is given; with any other method the records are
    /// concatenated unchanged. The summary is computed afresh.
    pub fn combine(
        collections: Vec<MetricsCollection>,
        method: &str,
        names: Option<Vec<String>>,
    ) -> (r: MetricsCollection)
        ensures
            r.wf(),
            views_of(r.reads@) == combined(
                collection_views(collections@),
                method@ == "track"@,
                names_view(names),
            ),
            r.reads@.len() == total_len(collection_views(collections@)),
    {
        let track = is_track(method);
        let ghost cv = collection_views(collections@);
        let ghost nv = names_view(names);
        let mut all: Vec<ReadMetrics> = Vec::new();
        let n = collections.len();
        let mut i: usize = 0;
        for c in it: collections.into_iter()
            invariant
                it.seq() == collections@,
                cv == collection_views(collections@),
                nv == names_view(names),
                i == it.index(),
                i <= n,
                n == collections@.len(),
                views_of(all@) == combined(cv.take(i as int), track, nv),
        {
            let ghost before = views_of(all@);
            assert(i < collections@.len());
            let reads = c.reads;
            proof {
                assert(cv.take(i as int + 1).drop_last() =~= cv.take(i as int));
                assert(cv[i as int] == views_of(reads@));
            }
            if track {
                let label = label_for(&names, i);
                append_tagged(&mut all, reads, &label);
            } else {
                let mut rs = reads;
                all.append(&mut rs);
                proof {
                    assert(views_of(all@) =~= before + views_of(reads@));
                }
            }
            i = i + 1;
        }
        proof {
            assert(cv.take(cv.len() as int) =~= cv);
            lemma_combined_len(cv, track, nv);
        }
        MetricsCollection::new(all)
    }

    /// The records of length at least `min_length`, with their own summary.
    pub fn filter_by_length(&self, min_length: u32) -> (r: MetricsCollection)
        ensures
            r.wf(),
            views_of(r.reads@) == length_filter(views_of(self.reads@), min_length),
    {
        let ghost vs = views_of(self.reads@);
        let mut kept: Vec<ReadMetrics> = Vec::new();
        let mut i: usize = 0;
        while i < self.reads.len()
            invariant
                vs == views_of(self.reads@),
                i <= self.reads@.len(),
                views_of(kept@) == length_filter(vs.take(i as int), min_length),
            decreases self.reads@.len() - i,
        {
            let ghost before = kept@;
            let read = &self.reads[i];
            if read.length >= min_length {
                kept.push(read.duplicate());
                proof {
                    assert(views_of(kept@) =~= views_of(before).push(read@));
                }
            }
            proof {
                assert(vs.take(i as int + 1).drop_last() =~= vs.take(i as int));
            }
            i = i + 1;
        }
        proof {
            assert(vs.take(vs.len() as int) =~= vs);
        }
        MetricsCollection::new(kept)
    }

    /// The records with a quality of at least `min_quality` (thousandths of a
    /// Phred unit), with their own summary; records without a quality are
    /// left out.
    pub fn filter_by_quality(&self, min_quality: u32) -> (r: MetricsCollection)
        ensures
            r.wf(),
            views_of(r.reads@) == quality_filter(views_of(self.reads@), min_quality),
    {
        let ghost vs = views_of(self.reads@);
        let mut kept: Vec<ReadMetrics> = Vec::new();
        let mut i: usize = 0;
        while i < self.reads.len()
            invariant
                vs == views_of(self.reads@),
                i <= self.reads@.len(),
                views_of(kept@) == quality_filter(vs.take(i as int), min_quality),
            decreases self.reads@.len() - i,
        {
            let ghost before = kept@;
            let read = &self.reads[i];
            let keep = match read.quality {
                Some(q) => q >= min_quality,
                None => false,
            };
            if keep {
                kept.push(read.duplicate());
                proof {
                    assert(views_of(kept@) =~= views_of(before).push(read@));
                }
            }
            proof {
                assert(vs.take(i as int + 1).drop_last() =~= vs.take(i as int));
            }
            i = i + 1;
        }
        proof {
            assert(vs.take(vs.len() as int) =~= vs);
        }
        MetricsCollection::new(kept)
    }

    /// The records whose dataset label is `dataset_name`, in order.
    pub fn reads_for_dataset(&self, dataset_name: &str) -> (r: Vec<&ReadMetrics>)
        ensures
            r@.map_values(|x: &ReadMetrics| x@) == dataset_filter(
                views_of(self.reads@),
                dataset_name@,
            ),
    {
        let ghost vs = views_of(self.reads@);
        let wanted = chars_of(dataset_name);
        let mut found: Vec<&ReadMetrics> = Vec::new();
        let mut i: usize = 0;
        while i < self.reads.len()
            invariant
                vs == views_of(self.reads@),
                wanted@ == dataset_name@,
                i <= self.reads@.len(),
                found@.map_values(|x: &ReadMetrics| x@) == dataset_filter(vs.take(i as int), wanted@),
            decreases self.reads@.len() - i,
        {
            let ghost before = found@;
            let read = &self.reads[i];
            let hit = match &read.dataset {
                Some(d) => {
                    let dc = chars_of(d.as_str());
                    same_chars(&dc, &wanted)
                },
                None => false,
            };
            if hit {
                found.push(read);
                proof {
                    assert(found@.map_values(|x: &ReadMetrics| x@) =~= before.map_values(
                        |x: &ReadMetrics| x@,
                    ).push(read@));
                }
            }
            proof {
                assert(vs.take(i as int + 1).drop_last() =~= vs.take(i as int));
            }
            i = i + 1;
        }
        proof {
            assert(vs.take(vs.len() as int) =~= vs);
        }
        found
    }
}

/// Every record kept by the length filter is at least that long.
pub proof fn lemma_length_filter_min(rs: Seq<ReadView>, min: u32)
    ensures
        forall|i: int|
            0 <= i < length_filter(rs, min).len() ==> #[trigger] length_filter(rs, min)[i].length
                >= min,
    decreases rs.len(),
{
    if rs.len() > 0 {
        lemma_length_filter_min(rs.drop_last(), min);
    }
}

impl MetricsCollection {
    /// The records at least as long as the length found at the given
    /// percentile (index `percentile * (n - 1) / 100` of the ascending lengths).
    pub fn reads_above_length_percentile(&self, percentile: u32) -> (r: MetricsCollection)
        ensures
            r.wf(),
            views_of(r.reads@) == length_filter(
                views_of(self.reads@),
                length_threshold(lengths_of(views_of(self.reads@)), percentile),
            ),
    {
        let ghost vs = views_of(self.reads@);
        let mut lengths: Vec<u32> = Vec::new();
        let mut i: usize = 0;
        while i < self.reads.len()
            invariant
                vs == views_of(self.reads@),
                i <= self.reads@.len(),
                lengths@ == lengths_of(vs.take(i as int)),
            decreases self.reads@.len() - i,
        {
            lengths.push(self.reads[i].length);
            proof {
                assert(vs.take(i as int + 1).drop_last() =~= vs.take(i as int));
            }
            i = i + 1;
        }
        proof {
            assert(vs.take(vs.len() as int) =~= vs);
        }
        let ghost unsorted = lengths@;
        sort_ascending(&mut lengths);
        proof {
            lemma_sorted_of(unsorted, lengths@);
            assert(lengths@.len() == lengths@.to_multiset().len());
            assert(unsorted.len() == unsorted.to_multiset().len());
        }
        let n = lengths.len();
        let threshold: u32 = if n == 0 {
            0
        } else {
            let ghost pp = percentile as int;
            let ghost kk = (n - 1) as int;
            assert(pp * kk <= 0xffff_ffff * 0xffff_ffff_ffff_ffff) by (nonlinear_arith)
                requires
                    0 <= pp <= 0xffff_ffff,
                    0 <= kk <= 0xffff_ffff_ffff_ffff,
            ;
            let index: u128 = (percentile as u128) * ((n - 1) as u128) / 100;
            if index < n as u128 {
                lengths[index as usize]
            } else {
                0
            }
        };
        self.filter_by_length(threshold)
    }
}

/// `a` comes strictly before `b` in lexicographic order of code points,
/// the order of Rust strings.
pub open spec fn lex_lt(a: Seq<char>, b: Seq<char>) -> bool
    decreases a.len(),
{
    if a.len() == 0 {
        b.len() > 0
    } else if b.len() == 0 {
        false
    } else if a[0] != b[0] {
        a[0] < b[0]
    } else {
        lex_lt(a.drop_first(), b.drop_first())
    }
}

proof fn lemma_lex_irreflexive(a: Seq<char>)
    ensures
        !lex_lt(a, a),
    decreases a.len(),
{
    if a.len() > 0 {
        lemma_lex_irreflexive(a.drop_first());
    }
}

proof fn lemma_lex_total(a: Seq<char>, b: Seq<char>)
    requires
        a != b,
    ensures
        lex_lt(a, b) || lex_lt(b, a),
    decreases a.len(),
{
    if a.len() > 0 && b.len() > 0 && a[0] == b[0] {
        if a.drop_first() == b.drop_first() {
            assert(a =~= seq![a[0]] + a.drop_first());
            assert(b =~= seq![b[0]] + b.drop_first());
        }
        lemma_lex_total(a.drop_first(), b.drop_first());
    } else if a.len() == 0 && b.len() == 0 {
        assert(a =~= b);
    }
}

proof fn lemma_lex_transitive(a: Seq<char>, b: Seq<char>, c: Seq<char>)
    requires
        lex_lt(a, b),
        lex_lt(b, c),
    ensures
        lex_lt(a, c),
    decreases a.len(),
{
    if a.len() > 0 && b.len() > 0 && c.len() > 0 && a[0] == b[0] && b[0] == c[0] {
        lemma_lex_transitive(a.drop_first(), b.drop_first(), c.drop_first());
    }
}

proof fn lemma_lex_skip(a: Seq<char>, b: Seq<char>, i: int)
    requires
        0 <= i <= a.len(),
        i <= b.len(),
        forall|k: int| 0 <= k < i ==> a[k] == b[k],
    ensures
        lex_lt(a, b) == lex_lt(a.skip(i), b.skip(i)),
    decreases i,
{
    if i > 0 {
        lemma_lex_skip(a.drop_first(), b.drop_first(), i - 1);
        assert(a.drop_first().skip(i - 1) =~= a.skip(i));
        assert(b.drop_first().skip(i - 1) =~= b.skip(i));
    } else {
        assert(a.skip(0) =~= a);
        assert(b.skip(0) =~= b);
    }
}

/// Whether `a` comes strictly before `b`.
pub fn lex_less(a: &Vec<char>, b: &Vec<char>) -> (r: bool)
    ensures
        r == lex_lt(a@, b@),
{
    let mut i: usize = 0;
    while i < a.len() && i < b.len()
        invariant
            i <= a@.len(),
            i <= b@.len(),
            forall|k: int| 0 <= k < i ==> a@[k] == b@[k],
        decreases a@.len() - i,
    {
        if a[i] != b[i] {
            proof {
                lemma_lex_skip(a@, b@, i as int);
            }
            return a[i] < b[i];
        }
        i = i + 1;
    }
    proof {
        lemma_lex_skip(a@, b@, i as int);
    }
    i == a.len() && i < b.len()
}

/// Some record is labelled with dataset `d`.
pub open spec fn has_dataset(rs: Seq<ReadView>, d: Seq<char>) -> bool {
    exists|i: int| 0 <= i < rs.len() && #[trigger] rs[i].dataset == Some(d)
}

spec fn strictly_sorted(names: Seq<Seq<char>>) -> bool {
    forall|i: int, j: int| 0 <= i < j < names.len() ==> lex_lt(#[trigger] names[i], #[trigger] names[j])
}

/// Adds `d` to the strictly sorted `names` unless it is there already.
fn insert_sorted(names: &mut Vec<String>, d: &String)
    requires
        strictly_sorted(texts(old(names)@)),
    ensures
        strictly_sorted(texts(final(names)@)),
        forall|x: Seq<char>|
            texts(final(names)@).contains(x) <==> (texts(old(names)@).contains(x) || x == d@),
{
    let dc = chars_of(d.as_str());
    let ghost old_t = texts(names@);
    let mut p: usize = 0;
    while p < names.len()
        invariant
            names@ == old(names)@,
            old_t == texts(names@),
            strictly_sorted(old_t),
            dc@ == d@,
            p <= names@.len(),
            forall|k: int| 0 <= k < p ==> lex_lt(#[trigger] old_t[k], d@),
        ensures
            p <= names@.len(),
            forall|k: int| 0 <= k < p ==> lex_lt(#[trigger] old_t[k], d@),
            p < names@.len() ==> !lex_lt(old_t[p as int], d@) && old_t[p as int] != d@,
        decreases names@.len() - p,
    {
        let here = chars_of(names[p].as_str());
        if same_chars(&here, &dc) {
            proof {
                assert(old_t[p as int] == d@);
            }
            return;
        }
        if !lex_less(&here, &dc) {
            assert(old_t[p as int] == here@);
            break;
        }
        p = p + 1;
    }
    proof {
        assert forall|k: int| 0 <= k < old_t.len() implies #[trigger] old_t[k] != d@ by {
            if k < p {
                lemma_lex_irreflexive(d@);
            } else {
                if old_t[k] == d@ {
                    if k > p {
                        lemma_lex_total(old_t[p as int], d@);
                        lemma_lex_transitive(d@, old_t[p as int], old_t[k]);
                        lemma_lex_irreflexive(d@);
                    }
                }
            }
        }
        assert forall|k: int| p <= k < old_t.len() implies lex_lt(d@, #[trigger] old_t[k]) by {
            lemma_lex_total(old_t[p as int], d@);
            if k > p {
                lemma_lex_transitive(d@, old_t[p as int], old_t[k]);
            }
        }
    }
    names.insert(p, d.clone());
    proof {
        let t = texts(names@);
        assert(t =~= old_t.insert(p as int, d@));
        assert forall|i: int, j: int| 0 <= i < j < t.len() implies lex_lt(#[trigger] t[i], #[trigger] t[j]) by {
            if j < p {
            } else if j == p {
            } else if i < p {
                lemma_lex_transitive(t[i], d@, t[j]);
            } else if i == p {
            } else {
            }
        }
        assert forall|x: Seq<char>| t.contains(x) <==> (old_t.contains(x) || x == d@) by {
            if t.contains(x) {
                let k = choose|k: int| 0 <= k < t.len() && t[k] == x;
                if k < p {
                    assert(old_t[k] == x);
                } else if k > p {
                    assert(old_t[k - 1] == x);
                }
            }
            if old_t.contains(x) {
                let k = choose|k: int| 0 <= k < old_t.len() && old_t[k] == x;
                if k < p {
                    assert(t[k] == x);
                } else {
                    assert(t[k + 1] == x);
                }
            }
            if x == d@ {
                assert(t[p as int] == x);
            }
        }
    }
}

impl MetricsCollection {
    /// The distinct dataset labels of the records, in ascending order.
    pub fn dataset_names(&self) -> (r: Vec<String>)
        ensures
            forall|i: int, j: int|
                0 <= i < j < r@.len() ==> lex_lt(#[trigger] r@[i]@, #[trigger] r@[j]@),
            forall|d: Seq<char>|
                texts(r@).contains(d) <==> has_dataset(views_of(self.reads@), d),
    {
        let ghost vs = views_of(self.reads@);
        let mut names: Vec<String> = Vec::new();
        let mut i: usize = 0;
        while i < self.reads.len()
            invariant
                vs == views_of(self.reads@),
                i <= self.reads@.len(),
                strictly_sorted(texts(names@)),
                forall|d: Seq<char>|
                    texts(names@).contains(d) <==> has_dataset(vs.take(i as int), d),
            decreases self.reads@.len() - i,
        {
            let ghost prev = vs.take(i as int);
            let ghost next = vs.take(i as int + 1);
            proof {
                assert forall|d: Seq<char>| has_dataset(next, d) <==> (has_dataset(prev, d)
                    || vs[i as int].dataset == Some(d)) by {
                    if has_dataset(next, d) {
                        let k = choose|k: int| 0 <= k < next.len() && #[trigger] next[k].dataset == Some(d);
                        if k < i {
                            assert(prev[k] == next[k]);
                        }
                    }
                    if has_dataset(prev, d) {
                        let k = choose|k: int| 0 <= k < prev.len() && #[trigger] prev[k].dataset == Some(d);
                        assert(next[k] == prev[k]);
                    }
                    if vs[i as int].dataset == Some(d) {
                        assert(next[i as int].dataset == Some(d));
                    }
                }
            }
            match &self.reads[i].dataset {
                Some(d) => {
                    insert_sorted(&mut names, d);
                },
                None => {},
            }
            i = i + 1;
        }
        proof {
            assert(vs.take(vs.len() as int) =~= vs);
            assert forall|a: int, b: int| 0 <= a < b < names@.len() implies lex_lt(
                #[trigger] names@[a]@,
                #[trigger] names@[b]@,
            ) by {
                assert(texts(names@)[a] == names@[a]@);
                assert(texts(names@)[b] == names@[b]@);
            }
        }
        names
    }
}

} // verus!
