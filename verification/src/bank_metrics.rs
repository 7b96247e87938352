//! What a bank makes known of itself.

use crate::types::Slot;
use vstd::prelude::*;

verus! {

/// The time as the bank has it.
#[derive(Clone, Copy, Debug)]
pub struct Clock {
    pub slot: Slot,
    pub epoch: u64,
    pub unix_timestamp: i64,
}

/// The value of a metric.
#[derive(Clone, Copy, Debug, PartialEq, Eq, Structural)]
pub enum MetricValue {
    Unsigned(u64),
    Signed(i64),
}

/// A metric, with what is said about it.
#[derive(Clone, Copy, Debug)]
pub struct MetricFamily {
    pub name: &'static str,
    pub help: &'static str,
    pub type_: &'static str,
    pub metric: MetricValue,
}

/// A gauge of that name, help and value.
pub open spec fn is_gauge(
    family: MetricFamily,
    name: Seq<char>,
    help: Seq<char>,
    value: MetricValue,
) -> bool {
    &&& family.name@ == name
    &&& family.help@ == help
    &&& family.type_@ == "gauge"@
    &&& family.metric == value
}

fn gauge(name: &'static str, help: &'static str, metric: MetricValue) -> (r: MetricFamily)
    ensures
        is_gauge(r, name@, help@, metric),
{
    MetricFamily { name, help, type_: "gauge", metric }
}

/// The metrics of a bank, in the order in which they are written.
pub fn bank_metrics(
    clock: &Clock,
    transaction_count: u64,
    transaction_error_count: u64,
) -> (r: Vec<MetricFamily>)
    ensures
        r@.len() == 5,
        is_gauge(
            r@[0],
            "solana_block_slot"@,
            "Current Slot"@,
            MetricValue::Unsigned(clock.slot),
        ),
        is_gauge(
            r@[1],
            "solana_block_epoch"@,
            "Current Epoch"@,
            MetricValue::Unsigned(clock.epoch),
        ),
        is_gauge(
            r@[2],
            "solana_block_successful_transaction_count"@,
            "Number of transactions in the block that executed successfully"@,
            MetricValue::Unsigned(transaction_count),
        ),
        is_gauge(
            r@[3],
            "solana_block_error_transaction_count"@,
            "Number of transactions in the block that executed with error"@,
            MetricValue::Unsigned(transaction_error_count),
        ),
        is_gauge(
            r@[4],
            "solana_block_timestamp_seconds"@,
            "The block's timestamp"@,
            MetricValue::Signed(clock.unix_timestamp),
        ),
{
    let mut r: Vec<MetricFamily> = Vec::new();
    r.push(gauge("solana_block_slot", "Current Slot", MetricValue::Unsigned(clock.slot)));
    r.push(gauge("solana_block_epoch", "Current Epoch", MetricValue::Unsigned(clock.epoch)));
    r.push(
        gauge(
            "solana_block_successful_transaction_count",
            "Number of transactions in the block that executed successfully",
            MetricValue::Unsigned(transaction_count),
        ),
    );
    r.push(
        gauge(
            "solana_block_error_transaction_count",
            "Number of transactions in the block that executed with error",
            MetricValue::Unsigned(transaction_error_count),
        ),
    );
    r.push(
        gauge(
            "solana_block_timestamp_seconds",
            "The block's timestamp",
            MetricValue::Signed(clock.unix_timestamp),
        ),
    );
    r
}

/// Each metric tells what its name says.
pub proof fn law_metrics_tell_what_they_are_named(
    clock: &Clock,
    transactions: u64,
    errors: u64,
    r: Vec<MetricFamily>,
    i: int,
)
    requires
        call_ensures(bank_metrics, (clock, transactions, errors), r),
        0 <= i < r@.len(),
    ensures
        r@.len() == 5,
        r@[i].type_@ == "gauge"@,
        i == 0 ==> r@[i].name@ == "solana_block_slot"@ && r@[i].metric == MetricValue::Unsigned(
            clock.slot,
        ),
        i == 1 ==> r@[i].name@ == "solana_block_epoch"@ && r@[i].metric == MetricValue::Unsigned(
            clock.epoch,
        ),
        i == 2 ==> r@[i].name@ == "solana_block_successful_transaction_count"@ && r@[i].metric
            == MetricValue::Unsigned(transactions),
        i == 3 ==> r@[i].name@ == "solana_block_error_transaction_count"@ && r@[i].metric
            == MetricValue::Unsigned(errors),
        i == 4 ==> r@[i].name@ == "solana_block_timestamp_seconds"@ && r@[i].metric
            == MetricValue::Signed(clock.unix_timestamp),
{
}

} // verus!
