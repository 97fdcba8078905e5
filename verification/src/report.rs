//! What an inspection of a store reports, how a report line reads, and the
//! word that ends a walk through a store.

use crate::keys::keys_equal;
use vstd::prelude::*;
use vstd::string::StringExecFns;

verus! {

/// A store property that an inspection reports, with the label of its line.
#[derive(Clone, Copy, Debug, PartialEq, Eq)]
pub struct ReportedProperty {
    /// The name under which the store is asked for the property.
    pub name: &'static str,
    /// The label under which the value is reported: the name without the
    /// store's own prefix.
    pub label: &'static str,
}

/// The names of the reported properties, in report order.
pub open spec fn reported_names() -> Seq<Seq<char>> {
    seq![
        "rocksdb.stats"@,
        "rocksdb.block-cache-capacity"@,
        "rocksdb.block-cache-usage"@,
        "rocksdb.block-cache-pinned-usage"@,
        "rocksdb.estimate-table-readers-mem"@,
    ]
}

/// The labels of the reported properties, in report order.
pub open spec fn reported_labels() -> Seq<Seq<char>> {
    seq![
        "stats"@,
        "block-cache-capacity"@,
        "block-cache-usage"@,
        "block-cache-pinned-usage"@,
        "estimate-table-readers-mem"@,
    ]
}

/// The properties that an inspection reports, in report order: the
/// store's statistics, three figures of its block cache, and the memory
/// that its table readers are estimated to hold.
pub fn reported_properties() -> (list: Vec<ReportedProperty>)
    ensures
        list@.len() == 5,
        forall|i: int|
            0 <= i < 5 ==> (#[trigger] list@[i]).name@ == reported_names()[i] && list@[i].label@
                == reported_labels()[i],
{
    let mut list: Vec<ReportedProperty> = Vec::new();
    list.push(ReportedProperty { name: "rocksdb.stats", label: "stats" });
    list.push(
        ReportedProperty { name: "rocksdb.block-cache-capacity", label: "block-cache-capacity" },
    );
    list.push(ReportedProperty { name: "rocksdb.block-cache-usage", label: "block-cache-usage" });
    list.push(
        ReportedProperty {
            name: "rocksdb.block-cache-pinned-usage",
            label: "block-cache-pinned-usage",
        },
    );
    list.push(
        ReportedProperty {
            name: "rocksdb.estimate-table-readers-mem",
            label: "estimate-table-readers-mem",
        },
    );
    list
}

/// One line of a report: the label, a colon, a space, and the value.
pub fn report_line(label: &str, value: &str) -> (line: String)
    ensures
        line@ == label@ + ": "@ + value@,
{
    let mut line = String::from_str(label);
    line.append(": ");
    line.append(value);
    line
}

/// The word that ends a walk through a store: the letter `q`.
pub open spec fn quit_word() -> Seq<u8> {
    seq![0x71u8]
}

/// Whether a word typed between two entries of a walk, with the white
/// space around it taken off, asks for the walk to end.
pub fn is_quit_word(word: &[u8]) -> (quit: bool)
    ensures
        quit == (word@ == quit_word()),
{
    let expected: [u8; 1] = [0x71];
    proof {
        assert(expected@ =~= quit_word());
    }
    keys_equal(word, expected.as_slice())
}

} // verus!
