//! Which process wrote the most to disk since the last look: each process's
//! running total of written bytes is compared with the total recorded for it
//! at the previous call.
use std::collections::HashMap;
use vstd::prelude::*;

verus! {

broadcast use vstd::std_specs::hash::group_hash_axioms;

/// The totals recorded from one round of samples `(pid, bytes written so
/// far)`: a later sample for the same process replaces an earlier one.
pub open spec fn totals_of(samples: Seq<(i32, u64)>) -> Map<i32, u64>
    decreases samples.len(),
{
    if samples.len() == 0 {
        Map::empty()
    } else {
        totals_of(samples.drop_last()).insert(samples.last().0, samples.last().1)
    }
}

/// The bytes a process wrote since the previous round: its growth over the
/// recorded total, or nothing when it has no recorded total or its total
/// did not grow.
pub open spec fn written_since(previous: Map<i32, u64>, sample: (i32, u64)) -> nat {
    let before = if previous.contains_key(sample.0) {
        previous[sample.0]
    } else {
        sample.1
    };
    if sample.1 > before {
        (sample.1 - before) as nat
    } else {
        0
    }
}

/// The process that wrote the most since the previous round, with the
/// amount: the first sample whose growth is the largest; `(0, 0)` when no
/// total grew.
pub open spec fn busiest_writer(previous: Map<i32, u64>, samples: Seq<(i32, u64)>) -> (i32, nat)
    decreases samples.len(),
{
    if samples.len() == 0 {
        (0, 0)
    } else {
        let best = busiest_writer(previous, samples.drop_last());
        let d = written_since(previous, samples.last());
        if d > best.1 {
            (samples.last().0, d)
        } else {
            best
        }
    }
}

/// Compares the samples with the totals recorded in `previous_totals`,
/// replaces the record with the new totals, and returns the process that
/// wrote the most in between (`0` when none did).
pub fn record_disk_writes(previous_totals: &mut HashMap<i32, u64>, samples: &Vec<(i32, u64)>) -> (busiest: i32)
    ensures
        final(previous_totals)@ == totals_of(samples@),
        busiest == busiest_writer(old(previous_totals)@, samples@).0,
{
    let ghost previous = previous_totals@;
    let mut busiest_pid: i32 = 0;
    let mut busiest_delta: u64 = 0;
    let mut new_totals: HashMap<i32, u64> = HashMap::new();
    let mut i: usize = 0;
    while i < samples.len()
        invariant
            i <= samples.len(),
            previous_totals@ == previous,
            new_totals@ == totals_of(samples@.take(i as int)),
            (busiest_pid, busiest_delta as nat) == busiest_writer(previous, samples@.take(i as int)),
        decreases samples.len() - i,
    {
        let (pid, write_bytes) = samples[i];
        assert(samples@.take(i + 1).drop_last() =~= samples@.take(i as int));
        new_totals.insert(pid, write_bytes);
        let previous_value = match previous_totals.get(&pid) {
            Some(value) => *value,
            None => write_bytes,
        };
        if write_bytes > previous_value {
            let delta = write_bytes - previous_value;
            if delta > busiest_delta {
                busiest_delta = delta;
                busiest_pid = pid;
            }
        }
        i += 1;
    }
    assert(samples@.take(i as int) =~= samples@);
    *previous_totals = new_totals;
    busiest_pid
}

/// No sample grows by more than the busiest writer's amount, and a named
/// writer is one of the samples, grown by exactly that amount.
pub proof fn lemma_busiest_writer_is_largest(previous: Map<i32, u64>, samples: Seq<(i32, u64)>)
    ensures
        forall|k: int|
            0 <= k < samples.len() ==> #[trigger] written_since(previous, samples[k])
                <= busiest_writer(previous, samples).1,
        busiest_writer(previous, samples).1 > 0 ==> exists|k: int|
            0 <= k < samples.len() && samples[k].0 == busiest_writer(previous, samples).0
                && written_since(previous, samples[k]) == busiest_writer(previous, samples).1,
    decreases samples.len(),
{
    if samples.len() > 0 {
        let init = samples.drop_last();
        lemma_busiest_writer_is_largest(previous, init);
        assert forall|k: int| 0 <= k < samples.len() implies #[trigger] written_since(
            previous,
            samples[k],
        ) <= busiest_writer(previous, samples).1 by {
            if k < samples.len() - 1 {
                assert(samples[k] == init[k]);
            }
        }
        if busiest_writer(previous, samples).1 > 0 {
            if written_since(previous, samples.last()) > busiest_writer(previous, init).1 {
                assert(samples[samples.len() - 1] == samples.last());
            } else {
                let k = choose|k: int|
                    0 <= k < init.len() && init[k].0 == busiest_writer(previous, init).0
                        && written_since(previous, init[k]) == busiest_writer(previous, init).1;
                assert(samples[k] == init[k]);
            }
        }
    }
}

/// Samples that agree: every sample of one process carries the same total,
/// as happens when no total changes while a round is read.
pub open spec fn consistent_samples(samples: Seq<(i32, u64)>) -> bool {
    forall|a: int, b: int|
        0 <= a < samples.len() && 0 <= b < samples.len() && #[trigger] samples[a].0
            == #[trigger] samples[b].0 ==> samples[a].1 == samples[b].1
}

/// Every sample's process has its total recorded.
proof fn lemma_totals_of_last(samples: Seq<(i32, u64)>, k: int)
    requires
        0 <= k < samples.len(),
        consistent_samples(samples),
    ensures
        totals_of(samples).contains_key(samples[k].0),
        totals_of(samples)[samples[k].0] == samples[k].1,
    decreases samples.len(),
{
    let last = samples.len() - 1;
    if k < last {
        let init = samples.drop_last();
        assert forall|a: int, b: int|
            0 <= a < init.len() && 0 <= b < init.len() && #[trigger] init[a].0 == #[trigger] init[b].0
                implies init[a].1 == init[b].1 by {
            assert(init[a] == samples[a] && init[b] == samples[b]);
        }
        lemma_totals_of_last(init, k);
        assert(init[k] == samples[k]);
        assert(samples.last() == samples[last]);
        if samples[k].0 == samples[last].0 {
            assert(samples[k].1 == samples[last].1);
        }
    }
}

/// Looking twice at the same totals finds no writer: a second round with
/// the same samples, compared with the totals the first round recorded,
/// finds that nothing grew, so no process is named (pid 0). The record
/// that round leaves is again `totals_of(samples)`, as each round's record
/// depends on its own samples alone. The samples must agree with each other
/// (one total per process, as when no total changes while they are read).
pub proof fn lemma_same_totals_find_no_writer(samples: Seq<(i32, u64)>)
    requires
        consistent_samples(samples),
    ensures
        busiest_writer(totals_of(samples), samples) == (0i32, 0nat),
{
    let recorded = totals_of(samples);
    assert forall|k: int| 0 <= k < samples.len() implies #[trigger] written_since(
        recorded,
        samples[k],
    ) == 0 by {
        lemma_totals_of_last(samples, k);
    }
    lemma_no_growth_no_writer(recorded, samples);
}

proof fn lemma_no_growth_no_writer(previous: Map<i32, u64>, samples: Seq<(i32, u64)>)
    requires
        forall|k: int| 0 <= k < samples.len() ==> #[trigger] written_since(previous, samples[k]) == 0,
    ensures
        busiest_writer(previous, samples) == (0i32, 0nat),
    decreases samples.len(),
{
    if samples.len() > 0 {
        let init = samples.drop_last();
        assert forall|k: int| 0 <= k < init.len() implies #[trigger] written_since(previous, init[k])
            == 0 by {
            assert(init[k] == samples[k]);
        }
        lemma_no_growth_no_writer(previous, init);
        assert(written_since(previous, samples[samples.len() - 1]) == 0);
    }
}

} // verus!
