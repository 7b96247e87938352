//! What the stage counts and measures.

use histogram::Histogram;
use vstd::multiset::Multiset;
use vstd::prelude::*;

verus! {

/// The histogram of `histogram`.
#[verifier::external_type_specification]
#[verifier::external_body]
pub struct ExHistogram(histogram::Histogram);

/// The samples that a histogram holds, each as the value of the bucket that it fell into.
pub uninterp spec fn histogram_values(h: Histogram) -> Multiset<u64>;

/// The histogram has the default configuration, and every sample so far fell into a bucket.
pub uninterp spec fn histogram_is_plain(h: Histogram) -> bool;

/// The value of the bucket that a sample falls into, in the default configuration.
pub uninterp spec fn histogram_bucket_value(sample: u64) -> u64;

/// The samples that have a bucket of their own each.
pub const MAX_EXACT_SAMPLE: u64 = 1024;

/// As what a sample is counted: a small one as itself, and a larger one as its bucket's value.
pub open spec fn counted_as(sample: u64) -> u64 {
    if sample <= MAX_EXACT_SAMPLE {
        sample
    } else {
        histogram_bucket_value(sample)
    }
}

/// The mean of the samples that a histogram holds. It is computed in floating point, from the
/// values of the buckets.
pub uninterp spec fn histogram_mean_of(values: Multiset<u64>) -> u64;

/// The largest sample that a histogram of the default configuration has a bucket for.
pub const MAX_SAMPLE: u64 = 60_000_000_000;

/// `Histogram::default`: an empty histogram of the default configuration.
#[verifier::external_body]
fn histogram_default() -> (r: Histogram)
    ensures
        histogram_is_plain(r),
        histogram_values(r) == Multiset::<u64>::empty(),
{
    Histogram::default()
}

/// `Histogram::increment`: a sample that is not too large goes to its bucket. The buckets of small
/// samples hold one value each, which is the sample.
#[verifier::external_body]
fn histogram_increment(h: &mut Histogram, sample: u64) -> (r: Result<(), &'static str>)
    requires
        histogram_is_plain(*old(h)),
        sample <= MAX_SAMPLE,
    ensures
        r is Ok,
        histogram_is_plain(*final(h)),
        histogram_values(*final(h)) == histogram_values(*old(h)).insert(
            if sample <= MAX_EXACT_SAMPLE {
                sample
            } else {
                histogram_bucket_value(sample)
            },
        ),
{
    h.increment(sample)
}

/// The smallest of the values.
pub open spec fn is_least(values: Multiset<u64>, m: u64) -> bool {
    &&& values.contains(m)
    &&& forall|v: u64| #[trigger] values.contains(v) ==> m <= v
}

/// The largest of the values.
pub open spec fn is_greatest(values: Multiset<u64>, m: u64) -> bool {
    &&& values.contains(m)
    &&& forall|v: u64| #[trigger] values.contains(v) ==> v <= m
}

/// `Histogram::minimum`: the smallest value held, if any.
#[verifier::external_body]
fn histogram_minimum(h: &Histogram) -> (r: Result<u64, &'static str>)
    requires
        histogram_is_plain(*h),
    ensures
        r is Ok <==> histogram_values(*h).len() > 0,
        r is Ok ==> is_least(histogram_values(*h), r->Ok_0),
{
    h.minimum()
}

/// `Histogram::maximum`: the largest value held, if any.
#[verifier::external_body]
fn histogram_maximum(h: &Histogram) -> (r: Result<u64, &'static str>)
    requires
        histogram_is_plain(*h),
    ensures
        r is Ok <==> histogram_values(*h).len() > 0,
        r is Ok ==> is_greatest(histogram_values(*h), r->Ok_0),
{
    h.maximum()
}

/// `Histogram::mean`: the mean of the values held, if there are any.
#[verifier::external_body]
fn histogram_mean(h: &Histogram) -> (r: Result<u64, &'static str>)
    requires
        histogram_is_plain(*h),
    ensures
        r is Ok <==> histogram_values(*h).len() > 0,
        r is Ok ==> r->Ok_0 == histogram_mean_of(histogram_values(*h)),
{
    h.mean()
}

/// What a round of verification came to. Times are in microseconds.
#[derive(Clone, Copy, Debug)]
pub struct Round {
    pub recv_time: u64,
    pub verify_time: u64,
    pub discard_time: u64,
    pub dedup_time: u64,
    pub batches_len: usize,
    pub num_packets: usize,
    pub dedup_fail: usize,
    pub excess_fail: usize,
}

/// What the stage has counted and measured since the last report.
pub struct SigVerifierStats {
    /// The time it took to receive packets.
    pub recv_batches_us_hist: Histogram,
    /// The time it took to verify signatures, per packet.
    pub verify_batches_pp_us_hist: Histogram,
    /// The time it took to discard packets in excess, per packet.
    pub discard_packets_pp_us_hist: Histogram,
    /// The time it took to recognize packets that were seen before, per packet.
    pub dedup_packets_pp_us_hist: Histogram,
    /// The number of batches per round.
    pub batches_hist: Histogram,
    /// The number of packets per round.
    pub packets_hist: Histogram,
    pub total_batches: usize,
    pub total_packets: usize,
    pub total_dedup: usize,
    pub total_excess_fail: usize,
}

/// The ninetieth percentile of each histogram, where it has one.
#[derive(Clone, Copy, Debug)]
pub struct NinetiethPercentiles {
    pub recv_batches_us: Option<u64>,
    pub verify_batches_pp_us: Option<u64>,
    pub discard_packets_pp_us: Option<u64>,
    pub dedup_packets_pp_us: Option<u64>,
    pub batches: Option<u64>,
    pub packets: Option<u64>,
}

/// One value of a report.
#[derive(Clone, Copy, Debug)]
pub struct Field {
    pub name: &'static str,
    pub value: u64,
}

/// A field of that name and value.
pub open spec fn is_field(field: Field, name: Seq<char>, value: u64) -> bool {
    field.name@ == name && field.value == value
}

/// A value that is reported as zero where there is none.
pub open spec fn or_zero(value: Option<u64>) -> u64 {
    match value {
        Some(v) => v,
        None => 0,
    }
}

/// From `at` on, four fields tell the ninetieth percentile, the minimum, the maximum and the mean
/// of a histogram, each zero where the histogram is empty.
pub open spec fn tells(
    fields: Seq<Field>,
    at: int,
    names: Seq<Seq<char>>,
    ninetieth: Option<u64>,
    values: Multiset<u64>,
) -> bool {
    &&& fields.len() >= at + 4
    &&& is_field(fields[at], names[0], or_zero(ninetieth))
    &&& fields[at + 1].name@ == names[1]
    &&& if values.len() > 0 {
        is_least(values, fields[at + 1].value)
    } else {
        fields[at + 1].value == 0
    }
    &&& fields[at + 2].name@ == names[2]
    &&& if values.len() > 0 {
        is_greatest(values, fields[at + 2].value)
    } else {
        fields[at + 2].value == 0
    }
    &&& is_field(
        fields[at + 3],
        names[3],
        if values.len() > 0 {
            histogram_mean_of(values)
        } else {
            0
        },
    )
}

/// Writes the four fields of a histogram to the end.
fn push_histogram(
    fields: &mut Vec<Field>,
    names: [&'static str; 4],
    ninetieth: Option<u64>,
    h: &Histogram,
)
    requires
        histogram_is_plain(*h),
    ensures
        final(fields)@.len() == old(fields)@.len() + 4,
        forall|i: int| 0 <= i < old(fields)@.len() ==> final(fields)@[i] == old(fields)@[i],
        tells(
            final(fields)@,
            old(fields)@.len() as int,
            seq![names[0]@, names[1]@, names[2]@, names[3]@],
            ninetieth,
            histogram_values(*h),
        ),
{
    let p90: u64 = match ninetieth {
        Some(v) => v,
        None => 0,
    };
    let min: u64 = match histogram_minimum(h) {
        Ok(v) => v,
        Err(_) => 0,
    };
    let max: u64 = match histogram_maximum(h) {
        Ok(v) => v,
        Err(_) => 0,
    };
    let mean: u64 = match histogram_mean(h) {
        Ok(v) => v,
        Err(_) => 0,
    };
    fields.push(Field { name: names[0], value: p90 });
    fields.push(Field { name: names[1], value: min });
    fields.push(Field { name: names[2], value: max });
    fields.push(Field { name: names[3], value: mean });
}

impl Default for SigVerifierStats {
    fn default() -> (r: Self)
        ensures
            r.wf(),
            histogram_values(r.recv_batches_us_hist) == Multiset::<u64>::empty(),
            histogram_values(r.verify_batches_pp_us_hist) == Multiset::<u64>::empty(),
            histogram_values(r.discard_packets_pp_us_hist) == Multiset::<u64>::empty(),
            histogram_values(r.dedup_packets_pp_us_hist) == Multiset::<u64>::empty(),
            histogram_values(r.batches_hist) == Multiset::<u64>::empty(),
            histogram_values(r.packets_hist) == Multiset::<u64>::empty(),
            r.total_batches == 0,
            r.total_packets == 0,
            r.total_dedup == 0,
            r.total_excess_fail == 0,
    {
        SigVerifierStats {
            recv_batches_us_hist: histogram_default(),
            verify_batches_pp_us_hist: histogram_default(),
            discard_packets_pp_us_hist: histogram_default(),
            dedup_packets_pp_us_hist: histogram_default(),
            batches_hist: histogram_default(),
            packets_hist: histogram_default(),
            total_batches: 0,
            total_packets: 0,
            total_dedup: 0,
            total_excess_fail: 0,
        }
    }
}

impl SigVerifierStats {
    /// No histogram was given a sample that it has no bucket for.
    pub open spec fn wf(&self) -> bool {
        &&& histogram_is_plain(self.recv_batches_us_hist)
        &&& histogram_is_plain(self.verify_batches_pp_us_hist)
        &&& histogram_is_plain(self.discard_packets_pp_us_hist)
        &&& histogram_is_plain(self.dedup_packets_pp_us_hist)
        &&& histogram_is_plain(self.batches_hist)
        &&& histogram_is_plain(self.packets_hist)
    }

    /// The round can be counted: it had packets, and nothing in it is too large.
    pub open spec fn can_record(&self, round: Round) -> bool {
        &&& round.num_packets > 0
        &&& round.recv_time <= MAX_SAMPLE
        &&& round.verify_time / (round.num_packets as u64) <= MAX_SAMPLE
        &&& round.discard_time / (round.num_packets as u64) <= MAX_SAMPLE
        &&& round.dedup_time / (round.num_packets as u64) <= MAX_SAMPLE
        &&& round.batches_len <= MAX_SAMPLE
        &&& round.num_packets <= MAX_SAMPLE
        &&& self.total_batches + round.batches_len <= usize::MAX
        &&& self.total_packets + round.num_packets <= usize::MAX
        &&& self.total_dedup + round.dedup_fail <= usize::MAX
        &&& self.total_excess_fail + round.excess_fail <= usize::MAX
    }

    /// Adds a round.
    pub fn record(&mut self, round: &Round)
        requires
            old(self).wf(),
            old(self).can_record(*round),
        ensures
            final(self).wf(),
            histogram_values(final(self).recv_batches_us_hist) == histogram_values(
                old(self).recv_batches_us_hist,
            ).insert(counted_as(round.recv_time)),
            histogram_values(final(self).verify_batches_pp_us_hist) == histogram_values(
                old(self).verify_batches_pp_us_hist,
            ).insert(counted_as(round.verify_time / (round.num_packets as u64))),
            histogram_values(final(self).discard_packets_pp_us_hist) == histogram_values(
                old(self).discard_packets_pp_us_hist,
            ).insert(counted_as(round.discard_time / (round.num_packets as u64))),
            histogram_values(final(self).dedup_packets_pp_us_hist) == histogram_values(
                old(self).dedup_packets_pp_us_hist,
            ).insert(counted_as(round.dedup_time / (round.num_packets as u64))),
            histogram_values(final(self).batches_hist) == histogram_values(
                old(self).batches_hist,
            ).insert(counted_as(round.batches_len as u64)),
            histogram_values(final(self).packets_hist) == histogram_values(
                old(self).packets_hist,
            ).insert(counted_as(round.num_packets as u64)),
            final(self).total_batches == old(self).total_batches + round.batches_len,
            final(self).total_packets == old(self).total_packets + round.num_packets,
            final(self).total_dedup == old(self).total_dedup + round.dedup_fail,
            final(self).total_excess_fail == old(self).total_excess_fail + round.excess_fail,
    {
        let packets: u64 = round.num_packets as u64;
        let _ = histogram_increment(&mut self.recv_batches_us_hist, round.recv_time);
        let _ = histogram_increment(
            &mut self.verify_batches_pp_us_hist,
            round.verify_time / packets,
        );
        let _ = histogram_increment(
            &mut self.discard_packets_pp_us_hist,
            round.discard_time / packets,
        );
        let _ = histogram_increment(&mut self.dedup_packets_pp_us_hist, round.dedup_time / packets);
        let _ = histogram_increment(&mut self.batches_hist, round.batches_len as u64);
        let _ = histogram_increment(&mut self.packets_hist, packets);
        self.total_batches = self.total_batches + round.batches_len;
        self.total_packets = self.total_packets + round.num_packets;
        self.total_dedup = self.total_dedup + round.dedup_fail;
        self.total_excess_fail = self.total_excess_fail + round.excess_fail;
    }

    /// Whether the round can be counted.
    pub fn is_recordable(&self, round: &Round) -> (r: bool)
        ensures
            r == self.can_record(*round),
    {
        if round.num_packets == 0 {
            return false;
        }
        let packets: u64 = round.num_packets as u64;
        round.recv_time <= MAX_SAMPLE && round.verify_time / packets <= MAX_SAMPLE
            && round.discard_time / packets <= MAX_SAMPLE && round.dedup_time / packets
            <= MAX_SAMPLE && round.batches_len as u64 <= MAX_SAMPLE && packets <= MAX_SAMPLE
            && self.total_batches <= usize::MAX - round.batches_len && self.total_packets
            <= usize::MAX - round.num_packets && self.total_dedup <= usize::MAX - round.dedup_fail
            && self.total_excess_fail <= usize::MAX - round.excess_fail
    }

    /// The values to report, in the order in which they are reported. A histogram without samples
    /// is reported with zeros.
    pub fn report(&self, ninetieth: &NinetiethPercentiles) -> (r: Vec<Field>)
        requires
            self.wf(),
        ensures
            r@.len() == 28,
            tells(
                r@,
                0,
                seq![
                    "recv_batches_us_90pct"@,
                    "recv_batches_us_min"@,
                    "recv_batches_us_max"@,
                    "recv_batches_us_mean"@,
                ],
                ninetieth.recv_batches_us,
                histogram_values(self.recv_batches_us_hist),
            ),
            tells(
                r@,
                4,
                seq![
                    "verify_batches_pp_us_90pct"@,
                    "verify_batches_pp_us_min"@,
                    "verify_batches_pp_us_max"@,
                    "verify_batches_pp_us_mean"@,
                ],
                ninetieth.verify_batches_pp_us,
                histogram_values(self.verify_batches_pp_us_hist),
            ),
            tells(
                r@,
                8,
                seq![
                    "discard_packets_pp_us_90pct"@,
                    "discard_packets_pp_us_min"@,
                    "discard_packets_pp_us_max"@,
                    "discard_packets_pp_us_mean"@,
                ],
                ninetieth.discard_packets_pp_us,
                histogram_values(self.discard_packets_pp_us_hist),
            ),
            tells(
                r@,
                12,
                seq![
                    "dedup_packets_pp_us_90pct"@,
                    "dedup_packets_pp_us_min"@,
                    "dedup_packets_pp_us_max"@,
                    "dedup_packets_pp_us_mean"@,
                ],
                ninetieth.dedup_packets_pp_us,
                histogram_values(self.dedup_packets_pp_us_hist),
            ),
            tells(
                r@,
                16,
                seq!["batches_90pct"@, "batches_min"@, "batches_max"@, "batches_mean"@],
                ninetieth.batches,
                histogram_values(self.batches_hist),
            ),
            tells(
                r@,
                20,
                seq!["packets_90pct"@, "packets_min"@, "packets_max"@, "packets_mean"@],
                ninetieth.packets,
                histogram_values(self.packets_hist),
            ),
            is_field(r@[24], "total_batches"@, self.total_batches as u64),
            is_field(r@[25], "total_packets"@, self.total_packets as u64),
            is_field(r@[26], "total_dedup"@, self.total_dedup as u64),
            is_field(r@[27], "total_excess_fail"@, self.total_excess_fail as u64),
    {
        let mut fields: Vec<Field> = Vec::new();
        push_histogram(
            &mut fields,
            [
                "recv_batches_us_90pct",
                "recv_batches_us_min",
                "recv_batches_us_max",
                "recv_batches_us_mean",
            ],
            ninetieth.recv_batches_us,
            &self.recv_batches_us_hist,
        );
        push_histogram(
            &mut fields,
            [
                "verify_batches_pp_us_90pct",
                "verify_batches_pp_us_min",
                "verify_batches_pp_us_max",
                "verify_batches_pp_us_mean",
            ],
            ninetieth.verify_batches_pp_us,
            &self.verify_batches_pp_us_hist,
        );
        push_histogram(
            &mut fields,
            [
                "discard_packets_pp_us_90pct",
                "discard_packets_pp_us_min",
                "discard_packets_pp_us_max",
                "discard_packets_pp_us_mean",
            ],
            ninetieth.discard_packets_pp_us,
            &self.discard_packets_pp_us_hist,
        );
        push_histogram(
            &mut fields,
            [
                "dedup_packets_pp_us_90pct",
                "dedup_packets_pp_us_min",
                "dedup_packets_pp_us_max",
                "dedup_packets_pp_us_mean",
            ],
            ninetieth.dedup_packets_pp_us,
            &self.dedup_packets_pp_us_hist,
        );
        push_histogram(
            &mut fields,
            ["batches_90pct", "batches_min", "batches_max", "batches_mean"],
            ninetieth.batches,
            &self.batches_hist,
        );
        push_histogram(
            &mut fields,
            ["packets_90pct", "packets_min", "packets_max", "packets_mean"],
            ninetieth.packets,
            &self.packets_hist,
        );
        fields.push(Field { name: "total_batches", value: self.total_batches as u64 });
        fields.push(Field { name: "total_packets", value: self.total_packets as u64 });
        fields.push(Field { name: "total_dedup", value: self.total_dedup as u64 });
        fields.push(Field { name: "total_excess_fail", value: self.total_excess_fail as u64 });
        fields
    }
}

/// A report tells of each round that was recorded before it: the totals grow by what the round
/// counted, and no time or number that is told is above the greatest or below the least.
pub proof fn law_a_recorded_round_is_reported(
    stats: &mut SigVerifierStats,
    round: &Round,
    ninetieth: &NinetiethPercentiles,
    r: Vec<Field>,
)
    requires
        old(stats).can_record(*round),
        round.recv_time <= 1024,
        round.batches_len <= 1024,
        round.num_packets <= 1024,
        call_ensures(SigVerifierStats::record, (stats, round), ()),
        call_ensures(SigVerifierStats::report, (&*final(stats), ninetieth), r),
    ensures
        r@[1].value <= round.recv_time <= r@[2].value,
        r@[17].value <= round.batches_len <= r@[18].value,
        r@[21].value <= round.num_packets <= r@[22].value,
        r@[24].value == old(stats).total_batches + round.batches_len,
        r@[25].value == old(stats).total_packets + round.num_packets,
        r@[26].value == old(stats).total_dedup + round.dedup_fail,
        r@[27].value == old(stats).total_excess_fail + round.excess_fail,
        r@[1].name@ == "recv_batches_us_min"@,
        r@[2].name@ == "recv_batches_us_max"@,
        r@[17].name@ == "batches_min"@,
        r@[18].name@ == "batches_max"@,
        r@[21].name@ == "packets_min"@,
        r@[22].name@ == "packets_max"@,
        r@[24].name@ == "total_batches"@,
        r@[25].name@ == "total_packets"@,
        r@[26].name@ == "total_dedup"@,
        r@[27].name@ == "total_excess_fail"@,
{
    let recv = histogram_values(final(stats).recv_batches_us_hist);
    let batches = histogram_values(final(stats).batches_hist);
    let packets = histogram_values(final(stats).packets_hist);
    assert(recv.contains(round.recv_time) && recv.len() > 0);
    assert(batches.contains(round.batches_len as u64) && batches.len() > 0);
    assert(packets.contains(round.num_packets as u64) && packets.len() > 0);
}

/// Times are counted per packet: the times of a round of so many packets are told divided by them.
pub proof fn law_times_are_told_per_packet(
    stats: &mut SigVerifierStats,
    round: &Round,
    ninetieth: &NinetiethPercentiles,
    r: Vec<Field>,
)
    requires
        old(stats).can_record(*round),
        round.verify_time / (round.num_packets as u64) <= 1024,
        round.discard_time / (round.num_packets as u64) <= 1024,
        round.dedup_time / (round.num_packets as u64) <= 1024,
        histogram_values(old(stats).verify_batches_pp_us_hist).len() == 0,
        histogram_values(old(stats).discard_packets_pp_us_hist).len() == 0,
        histogram_values(old(stats).dedup_packets_pp_us_hist).len() == 0,
        call_ensures(SigVerifierStats::record, (stats, round), ()),
        call_ensures(SigVerifierStats::report, (&*final(stats), ninetieth), r),
    ensures
        r@[5].value == round.verify_time / (round.num_packets as u64),
        r@[6].value == round.verify_time / (round.num_packets as u64),
        r@[9].value == round.discard_time / (round.num_packets as u64),
        r@[10].value == round.discard_time / (round.num_packets as u64),
        r@[13].value == round.dedup_time / (round.num_packets as u64),
        r@[14].value == round.dedup_time / (round.num_packets as u64),
        r@[5].name@ == "verify_batches_pp_us_min"@,
        r@[6].name@ == "verify_batches_pp_us_max"@,
        r@[9].name@ == "discard_packets_pp_us_min"@,
        r@[10].name@ == "discard_packets_pp_us_max"@,
        r@[13].name@ == "dedup_packets_pp_us_min"@,
        r@[14].name@ == "dedup_packets_pp_us_max"@,
{
    let packets = round.num_packets as u64;
    lemma_only_value(
        histogram_values(old(stats).verify_batches_pp_us_hist),
        round.verify_time / packets,
    );
    lemma_only_value(
        histogram_values(old(stats).discard_packets_pp_us_hist),
        round.discard_time / packets,
    );
    lemma_only_value(
        histogram_values(old(stats).dedup_packets_pp_us_hist),
        round.dedup_time / packets,
    );
}

proof fn lemma_only_value(values: Multiset<u64>, v: u64)
    requires
        values.len() == 0,
    ensures
        values.insert(v).len() == 1,
        forall|w: u64| #[trigger] values.insert(v).count(w) > 0 <==> w == v,
{
    assert forall|w: u64| #[trigger] values.insert(v).count(w) > 0 <==> w == v by {
        assert(values.count(w) <= values.len());
    }
}

/// The ninetieth percentiles are reported as they are handed in, each under its name, and as zero where
/// there is none.
pub proof fn law_percentiles_are_reported(
    stats: &SigVerifierStats,
    ninetieth: &NinetiethPercentiles,
    r: Vec<Field>,
)
    requires
        call_ensures(SigVerifierStats::report, (stats, ninetieth), r),
    ensures
        r@[0].name@ == "recv_batches_us_90pct"@,
        r@[4].name@ == "verify_batches_pp_us_90pct"@,
        r@[8].name@ == "discard_packets_pp_us_90pct"@,
        r@[12].name@ == "dedup_packets_pp_us_90pct"@,
        r@[16].name@ == "batches_90pct"@,
        r@[20].name@ == "packets_90pct"@,
        ninetieth.recv_batches_us matches Some(v) ==> r@[0].value == v,
        ninetieth.verify_batches_pp_us matches Some(v) ==> r@[4].value == v,
        ninetieth.discard_packets_pp_us matches Some(v) ==> r@[8].value == v,
        ninetieth.dedup_packets_pp_us matches Some(v) ==> r@[12].value == v,
        ninetieth.batches matches Some(v) ==> r@[16].value == v,
        ninetieth.packets matches Some(v) ==> r@[20].value == v,
        ninetieth.recv_batches_us is None ==> r@[0].value == 0,
        ninetieth.packets is None ==> r@[20].value == 0,
{
}

proof fn lemma_extremes(values: Multiset<u64>, v: u64, min: u64, max: u64, min1: u64, max1: u64)
    requires
        values.len() > 0,
        is_least(values, min),
        is_greatest(values, max),
        is_least(values.insert(v), min1),
        is_greatest(values.insert(v), max1),
    ensures
        min1 == vstd::math::min(min as int, v as int),
        max1 == vstd::math::max(max as int, v as int),
{
    let all = values.insert(v);
    assert(all.contains(v) && all.contains(min) && all.contains(max));
    assert(min1 == v || values.contains(min1));
    assert(max1 == v || values.contains(max1));
}

/// A round moves the least value that is told down to its own, and the greatest up to its own, where
/// they were not beyond it already: the time to receive it, the times per packet, and its numbers.
pub proof fn law_a_round_moves_the_extremes(
    stats: &mut SigVerifierStats,
    round: &Round,
    ninetieth: &NinetiethPercentiles,
    before: Vec<Field>,
    after: Vec<Field>,
)
    requires
        old(stats).can_record(*round),
        round.recv_time <= 1024,
        round.verify_time / (round.num_packets as u64) <= 1024,
        round.discard_time / (round.num_packets as u64) <= 1024,
        round.dedup_time / (round.num_packets as u64) <= 1024,
        round.batches_len <= 1024,
        round.num_packets <= 1024,
        histogram_values(old(stats).recv_batches_us_hist).len() > 0,
        histogram_values(old(stats).verify_batches_pp_us_hist).len() > 0,
        histogram_values(old(stats).discard_packets_pp_us_hist).len() > 0,
        histogram_values(old(stats).dedup_packets_pp_us_hist).len() > 0,
        histogram_values(old(stats).batches_hist).len() > 0,
        histogram_values(old(stats).packets_hist).len() > 0,
        call_ensures(SigVerifierStats::report, (&*old(stats), ninetieth), before),
        call_ensures(SigVerifierStats::record, (stats, round), ()),
        call_ensures(SigVerifierStats::report, (&*final(stats), ninetieth), after),
    ensures
        ({
            let packets = round.num_packets as int;
            let own = seq![
                round.recv_time as int,
                round.verify_time as int / packets,
                round.discard_time as int / packets,
                round.dedup_time as int / packets,
                round.batches_len as int,
                packets,
            ];
            forall|h: int|
                0 <= h < 6 ==> after@[4 * h + 1].value == vstd::math::min(
                    before@[4 * h + 1].value as int,
                    #[trigger] own[h],
                ) && after@[4 * h + 2].value == vstd::math::max(
                    before@[4 * h + 2].value as int,
                    own[h],
                )
        }),
{
    let packets = round.num_packets as u64;
    lemma_extremes(
        histogram_values(old(stats).recv_batches_us_hist),
        round.recv_time,
        before@[1].value,
        before@[2].value,
        after@[1].value,
        after@[2].value,
    );
    lemma_extremes(
        histogram_values(old(stats).verify_batches_pp_us_hist),
        round.verify_time / packets,
        before@[5].value,
        before@[6].value,
        after@[5].value,
        after@[6].value,
    );
    lemma_extremes(
        histogram_values(old(stats).discard_packets_pp_us_hist),
        round.discard_time / packets,
        before@[9].value,
        before@[10].value,
        after@[9].value,
        after@[10].value,
    );
    lemma_extremes(
        histogram_values(old(stats).dedup_packets_pp_us_hist),
        round.dedup_time / packets,
        before@[13].value,
        before@[14].value,
        after@[13].value,
        after@[14].value,
    );
    lemma_extremes(
        histogram_values(old(stats).batches_hist),
        round.batches_len as u64,
        before@[17].value,
        before@[18].value,
        after@[17].value,
        after@[18].value,
    );
    lemma_extremes(
        histogram_values(old(stats).packets_hist),
        packets,
        before@[21].value,
        before@[22].value,
        after@[21].value,
        after@[22].value,
    );
}

} // verus!
