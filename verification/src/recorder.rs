//! The delta recorder: turns cumulative, possibly-resetting per-interface
//! counters into a stream of non-negative deltas.
//!
//! A `Snapshot` is one reading of the counter source: every currently
//! visible interface with its cumulative received/transmitted byte counts.
//! `compute_deltas` compares a fresh snapshot against the previous one and
//! yields one delta record per interface present in both, using
//! floor-at-zero subtraction so that a counter reset can never produce a
//! negative (or wrapped-around) delta. An interface seen for the first time
//! yields no record: its reading only becomes the baseline for the next
//! tick. The caller then makes the fresh snapshot the baseline for the next
//! tick, dropping interfaces that disappeared.

use vstd::prelude::*;

verus! {

/// Floor-at-zero subtraction of cumulative counters: the defensive response
/// to a counter reset, where a blind subtraction would underflow.
pub open spec fn sat_sub64(a: u64, b: u64) -> u64 {
    if a >= b {
        (a - b) as u64
    } else {
        0
    }
}

/// A saturating delta is never negative, even when the later cumulative
/// value is smaller than the prior one (a simulated counter reset): a reset
/// window contributes zero rather than a wrapped-around value, and an
/// ordinary window contributes the exact difference.
pub proof fn lemma_saturating_delta_nonnegative(new_total: u64, prev_total: u64)
    ensures
        sat_sub64(new_total, prev_total) >= 0,
        prev_total > new_total ==> sat_sub64(new_total, prev_total) == 0,
        prev_total <= new_total ==> sat_sub64(new_total, prev_total) == new_total - prev_total,
{
}

fn sat_sub(a: u64, b: u64) -> (r: u64)
    ensures
        r == sat_sub64(a, b),
{
    if a >= b {
        a - b
    } else {
        0
    }
}

/// One interface's cumulative counters in a snapshot.
pub struct InterfaceCounters {
    pub name: String,
    pub rx_total: u64,
    pub tx_total: u64,
}

/// One reading of the counter source: a mapping from interface name to
/// cumulative counters, with each name occurring at most once.
pub struct Snapshot {
    entries: Vec<InterfaceCounters>,
}

impl Snapshot {
    /// Well-formedness: interface names are unique keys.
    pub closed spec fn wf(self) -> bool {
        forall|i: int, j: int|
            #![trigger self.entries@[i], self.entries@[j]]
            0 <= i < j < self.entries@.len() ==> self.entries@[i].name@ != self.entries@[j].name@
    }

    /// Whether the snapshot has a reading for `name`.
    pub closed spec fn has(self, name: Seq<char>) -> bool {
        exists|i: int| 0 <= i < self.entries@.len() && (#[trigger] self.entries@[i]).name@ == name
    }

    spec fn idx_of(self, name: Seq<char>) -> int {
        choose|i: int| 0 <= i < self.entries@.len() && (#[trigger] self.entries@[i]).name@ == name
    }

    /// The cumulative received bytes recorded for `name`.
    pub closed spec fn rx_of(self, name: Seq<char>) -> u64 {
        self.entries@[self.idx_of(name)].rx_total
    }

    /// The cumulative transmitted bytes recorded for `name`.
    pub closed spec fn tx_of(self, name: Seq<char>) -> u64 {
        self.entries@[self.idx_of(name)].tx_total
    }

    /// Number of interfaces in the snapshot.
    pub closed spec fn interface_count(self) -> nat {
        self.entries@.len()
    }

    pub fn new() -> (s: Self)
        ensures
            s.wf(),
            s.interface_count() == 0,
            forall|name: Seq<char>| !(#[trigger] s.has(name)),
    {
        Snapshot { entries: Vec::new() }
    }

    /// Record one interface's reading. A name already present is refused
    /// (returning `false`), so the unique-key invariant always holds.
    pub fn insert_sample(&mut self, name: String, rx_total: u64, tx_total: u64) -> (added: bool)
        requires
            old(self).wf(),
        ensures
            final(self).wf(),
            added == !old(self).has(name@),
            final(self).has(name@),
            added ==> final(self).rx_of(name@) == rx_total && final(self).tx_of(name@) == tx_total
                && final(self).interface_count() == old(self).interface_count() + 1,
            !added ==> *final(self) == *old(self),
            forall|other: Seq<char>|
                other != name@ ==> #[trigger] final(self).has(other) == old(self).has(other),
            forall|other: Seq<char>|
                other != name@ && old(self).has(other) ==> #[trigger] final(self).rx_of(other)
                    == old(self).rx_of(other) && final(self).tx_of(other) == old(self).tx_of(other),
    {
        let n = self.entries.len();
        let mut i: usize = 0;
        while i < n
            invariant
                n == self.entries@.len(),
                i <= n,
                forall|k: int| 0 <= k < i ==> (#[trigger] self.entries@[k]).name@ != name@,
                self.wf(),
            decreases n - i,
        {
            if self.entries[i].name == name {
                proof {
                    assert(self.has(name@));
                }
                return false;
            }
            i += 1;
        }
        proof {
            assert(!self.has(name@));
        }
        let ghost old_entries = self.entries@;
        let entry = InterfaceCounters { name, rx_total, tx_total };
        self.entries.push(entry);
        proof {
            let ghost new_len = old_entries.len() as int;
            assert(self.entries@[new_len] == entry);
            assert forall|other: Seq<char>| other != entry.name@ implies #[trigger] self.has(other)
                == exists|k: int|
                0 <= k < old_entries.len() && (#[trigger] old_entries[k]).name@ == other by {
                if self.has(other) {
                    let k = choose|k: int|
                        0 <= k < self.entries@.len() && (#[trigger] self.entries@[k]).name@
                            == other;
                    assert(k < new_len);
                    assert(old_entries[k].name@ == other);
                }
                if exists|k: int|
                    0 <= k < old_entries.len() && (#[trigger] old_entries[k]).name@ == other {
                    let k = choose|k: int|
                        0 <= k < old_entries.len() && (#[trigger] old_entries[k]).name@ == other;
                    assert(self.entries@[k].name@ == other);
                }
            }
            assert(self.has(entry.name@)) by {
                assert(self.entries@[new_len].name@ == entry.name@);
            }
            assert(self.idx_of(entry.name@) == new_len) by {
                let q = self.idx_of(entry.name@);
                if q != new_len {
                    assert(old_entries[q].name@ == entry.name@);
                }
            }
            assert forall|other: Seq<char>|
                other != entry.name@ && old(self).has(other) implies #[trigger] self.rx_of(other)
                == old(self).rx_of(other) && self.tx_of(other) == old(self).tx_of(other) by {
                assert(self.has(other));
                let qn = self.idx_of(other);
                assert(0 <= qn < self.entries@.len() && self.entries@[qn].name@ == other);
                assert(qn < new_len);
                let qo = old(self).idx_of(other);
                assert(0 <= qo < old_entries.len() && old_entries[qo].name@ == other);
                if qn != qo {
                    assert(old_entries[qn].name@ == old_entries[qo].name@);
                }
            }
        }
        true
    }
}

/// One delta record, ready to be appended to the event store.
pub struct DeltaRecord {
    pub interface: String,
    pub rx_delta: u64,
    pub tx_delta: u64,
}

pub open spec fn deltas_have_interface(deltas: Seq<DeltaRecord>, name: Seq<char>) -> bool {
    exists|i: int| 0 <= i < deltas.len() && (#[trigger] deltas[i]).interface@ == name
}

/// One tick of the delta recorder's decision logic: compare a fresh
/// snapshot against the previous one and yield one saturating delta per
/// interface present in both. An interface seen for the first time (absent
/// from `prev`) yields no record — its reading is only a baseline — and an
/// interface that disappeared yields none either.
#[verifier::loop_isolation(false)]
pub fn compute_deltas(prev: &Snapshot, current: &Snapshot) -> (deltas: Vec<DeltaRecord>)
    requires
        prev.wf(),
        current.wf(),
    ensures
        forall|i: int|
            0 <= i < deltas@.len() ==> {
                let d = #[trigger] deltas@[i];
                prev.has(d.interface@) && current.has(d.interface@) && d.rx_delta == sat_sub64(
                    current.rx_of(d.interface@),
                    prev.rx_of(d.interface@),
                ) && d.tx_delta == sat_sub64(
                    current.tx_of(d.interface@),
                    prev.tx_of(d.interface@),
                )
            },
        forall|name: Seq<char>|
            current.has(name) && prev.has(name) ==> #[trigger] deltas_have_interface(
                deltas@,
                name,
            ),
        forall|name: Seq<char>|
            !prev.has(name) ==> !#[trigger] deltas_have_interface(deltas@, name),
        forall|i: int, j: int|
            #![trigger deltas@[i], deltas@[j]]
            0 <= i < j < deltas@.len() ==> deltas@[i].interface@ != deltas@[j].interface@,
{
    let mut deltas: Vec<DeltaRecord> = Vec::new();
    let n = current.entries.len();
    let mut idx: usize = 0;
    while idx < n
        invariant
            n == current.entries@.len(),
            idx <= n,
            forall|i: int|
                0 <= i < deltas@.len() ==> {
                    let d = #[trigger] deltas@[i];
                    prev.has(d.interface@) && current.has(d.interface@) && d.rx_delta == sat_sub64(
                        current.rx_of(d.interface@),
                        prev.rx_of(d.interface@),
                    ) && d.tx_delta == sat_sub64(
                        current.tx_of(d.interface@),
                        prev.tx_of(d.interface@),
                    )
                },
            forall|i: int|
                0 <= i < deltas@.len() ==> exists|ci: int|
                    0 <= ci < idx && (#[trigger] deltas@[i]).interface@
                        == current.entries@[ci].name@,
            forall|ci: int|
                0 <= ci < idx && prev.has((#[trigger] current.entries@[ci]).name@)
                    ==> deltas_have_interface(deltas@, current.entries@[ci].name@),
            forall|i: int, j: int|
                #![trigger deltas@[i], deltas@[j]]
                0 <= i < j < deltas@.len() ==> deltas@[i].interface@ != deltas@[j].interface@,
        decreases n - idx,
    {
        let e = &current.entries[idx];
        let ghost nm = e.name@;
        proof {
            assert(current.has(nm));
            assert(current.idx_of(nm) == idx as int) by {
                let q = current.idx_of(nm);
                if q != idx as int {
                    assert(current.entries@[q].name@ == nm);
                }
            }
        }
        let mut p: usize = 0;
        let pn = prev.entries.len();
        let mut found = false;
        let mut prev_rx: u64 = 0;
        let mut prev_tx: u64 = 0;
        while p < pn && !found
            invariant
                pn == prev.entries@.len(),
                p <= pn,
                !found ==> forall|k: int|
                    0 <= k < p ==> (#[trigger] prev.entries@[k]).name@ != nm,
                found ==> prev.has(nm) && prev_rx == prev.rx_of(nm) && prev_tx == prev.tx_of(nm),
            decreases pn - p, (if found { 0int } else { 1int }),
        {
            if prev.entries[p].name == e.name {
                found = true;
                prev_rx = prev.entries[p].rx_total;
                prev_tx = prev.entries[p].tx_total;
                proof {
                    assert(prev.has(nm));
                    assert(prev.idx_of(nm) == p as int) by {
                        let q = prev.idx_of(nm);
                        if q != p as int {
                            assert(prev.entries@[q].name@ == nm);
                        }
                    }
                }
            } else {
                p += 1;
            }
        }
        if found {
            let rx_delta = sat_sub(e.rx_total, prev_rx);
            let tx_delta = sat_sub(e.tx_total, prev_tx);
            let ghost old_deltas = deltas@;
            deltas.push(DeltaRecord { interface: e.name.clone(), rx_delta, tx_delta });
            proof {
                assert(deltas@[old_deltas.len() as int].interface@ == nm);
                assert forall|i: int| 0 <= i < old_deltas.len() implies (
                #[trigger] deltas@[i]).interface@ != nm by {
                    let ci = choose|ci: int|
                        0 <= ci < idx && (#[trigger] old_deltas[i]).interface@
                            == current.entries@[ci].name@;
                    assert(deltas@[i] == old_deltas[i]);
                    assert(current.entries@[ci].name@ != current.entries@[idx as int].name@);
                }
                assert forall|ci: int|
                    0 <= ci < idx + 1 && prev.has(
                        (#[trigger] current.entries@[ci]).name@,
                    ) implies deltas_have_interface(deltas@, current.entries@[ci].name@) by {
                    if ci < idx {
                        let wi = choose|wi: int|
                            0 <= wi < old_deltas.len() && (#[trigger] old_deltas[wi]).interface@
                                == current.entries@[ci].name@;
                        assert(deltas@[wi].interface@ == current.entries@[ci].name@);
                    } else {
                        assert(deltas@[old_deltas.len() as int].interface@
                            == current.entries@[ci].name@);
                    }
                }
            }
        } else {
            proof {
                assert(!prev.has(nm)) by {
                    if prev.has(nm) {
                        let q = prev.idx_of(nm);
                        assert(prev.entries@[q].name@ == nm);
                    }
                }
            }
        }
        idx += 1;
    }
    proof {
        assert forall|name: Seq<char>|
            current.has(name) && prev.has(name) implies #[trigger] deltas_have_interface(
            deltas@,
            name,
        ) by {
            let ci = choose|ci: int|
                0 <= ci < current.entries@.len() && (#[trigger] current.entries@[ci]).name@
                    == name;
            assert(prev.has(current.entries@[ci].name@));
        }
        assert forall|name: Seq<char>| !prev.has(name) implies !#[trigger] deltas_have_interface(
            deltas@,
            name,
        ) by {
            if deltas_have_interface(deltas@, name) {
                let i = choose|i: int|
                    0 <= i < deltas@.len() && (#[trigger] deltas@[i]).interface@ == name;
                assert(prev.has(deltas@[i].interface@));
            }
        }
    }
    deltas
}

} // verus!
