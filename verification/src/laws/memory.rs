//! The resident memory of a process tree, and its peak.

use vstd::prelude::*;

use crate::rss_sampler::{
    after_reset, after_start, ascends_to, bumped, in_tree, lemma_process_table_finite,
    lemma_total_rss_empty, lemma_total_rss_insert, process_table, reported_peak, scan_total, status_of, total_rss,
    tree, ProcessEntry, ProcessStatus, Sampler,
};

verus! {

/// A process is in the tree if it is the root, or its parent is in the tree.
pub proof fn law_tree_is_root_and_children(
    table: Map<u32, ProcessStatus>,
    pid: u32,
    root: u32,
)
    ensures
        in_tree(table, pid, root) <==> pid == root || (table.contains_key(pid) && in_tree(
            table,
            table[pid].ppid,
            root,
        )),
        tree(table, root).contains(pid) <==> table.contains_key(pid) && in_tree(table, pid, root),
{
    if pid == root {
        assert(ascends_to(table, pid, root, 0));
    } else if in_tree(table, pid, root) {
        let steps = choose|steps: nat| ascends_to(table, pid, root, steps);
        assert(ascends_to(table, table[pid].ppid, root, (steps - 1) as nat));
    } else if table.contains_key(pid) && in_tree(table, table[pid].ppid, root) {
        let steps = choose|steps: nat| ascends_to(table, table[pid].ppid, root, steps);
        assert(ascends_to(table, pid, root, steps + 1));
    }
}

/// Processes among which all their parents are, and not the root, are not in
/// the tree, even where they form a cycle.
pub proof fn law_unrelated_processes_are_outside(
    table: Map<u32, ProcessStatus>,
    root: u32,
    others: Set<u32>,
    pid: u32,
)
    requires
        !others.contains(root),
        forall|p: u32| #[trigger]
            others.contains(p) && table.contains_key(p) ==> others.contains(table[p].ppid),
        others.contains(pid),
    ensures
        !in_tree(table, pid, root),
{
    if in_tree(table, pid, root) {
        let steps = choose|steps: nat| ascends_to(table, pid, root, steps);
        lemma_outside(table, root, others, pid, steps);
    }
}

proof fn lemma_outside(
    table: Map<u32, ProcessStatus>,
    root: u32,
    others: Set<u32>,
    pid: u32,
    steps: nat,
)
    requires
        !others.contains(root),
        forall|p: u32| #[trigger]
            others.contains(p) && table.contains_key(p) ==> others.contains(table[p].ppid),
        others.contains(pid),
    ensures
        !ascends_to(table, pid, root, steps),
    decreases steps,
{
    if steps > 0 && table.contains_key(pid) {
        lemma_outside(table, root, others, table[pid].ppid, (steps - 1) as nat);
    }
}

/// A scan gives the status of each process: that of its last entry.
pub proof fn law_scan_gives_the_last_status(
    entries: Seq<ProcessEntry>,
    entry: ProcessEntry,
    pid: u32,
)
    ensures
        process_table(Seq::empty()).dom() == Set::<u32>::empty(),
        ({
            let (before, after) = (process_table(entries), process_table(entries.push(entry)));
            if pid == entry.pid {
                after.contains_key(pid) && after[pid] == status_of(entry.status@)
            } else {
                after.contains_key(pid) == before.contains_key(pid) && (before.contains_key(pid)
                    ==> after[pid] == before[pid])
            }
        }),
{
    assert(entries.push(entry).drop_last() =~= entries);
}

/// The bytes that the tree of `root` takes up in a scan.
pub open spec fn tree_bytes(entries: Seq<ProcessEntry>, root: u32) -> nat {
    total_rss(process_table(entries), tree(process_table(entries), root))
}

/// Without processes there is no memory. A further process adds its resident
/// size to the total if it is the root, or its parent is in the tree, and
/// changes nothing elsewhere. The total is cut off at the largest number.
pub proof fn law_processes_add_up(entries: Seq<ProcessEntry>, entry: ProcessEntry, root: u32)
    requires
        !process_table(entries).contains_key(entry.pid),
        entry.pid == root || forall|pid: u32| #[trigger]
            process_table(entries).contains_key(pid) ==> process_table(entries)[pid].ppid
                != entry.pid,
    ensures
        tree_bytes(Seq::empty(), root) == 0,
        tree_bytes(entries.push(entry), root) == tree_bytes(entries, root) + if entry.pid == root
            || in_tree(process_table(entries), status_of(entry.status@).ppid, root) {
            status_of(entry.status@).rss as nat
        } else {
            0
        },
        scan_total(entries, root) == if tree_bytes(entries, root) <= u64::MAX {
            tree_bytes(entries, root)
        } else {
            u64::MAX as nat
        },
{
    let (before, after) = (process_table(entries), process_table(entries.push(entry)));
    let status = status_of(entry.status@);
    let pid = entry.pid;
    let none = process_table(Seq::<ProcessEntry>::empty());
    assert(tree(none, root) =~= Set::empty());
    lemma_total_rss_empty(none);
    assert(entries.push(entry).drop_last() =~= entries);
    assert(after == before.insert(pid, status));
    lemma_process_table_finite(entries);
    let (a, b) = (tree(before, root), tree(after, root));
    assert(a.subset_of(before.dom()));
    vstd::set_lib::lemma_len_subset(a, before.dom());
    assert forall|p: u32| p != pid implies in_tree(before, p, root) == in_tree(after, p, root) by {
        lemma_same_tree(before, after, pid, root, p);
    }
    law_tree_is_root_and_children(after, pid, root);
    if status.ppid != pid {
        assert(in_tree(before, status.ppid, root) == in_tree(after, status.ppid, root));
    } else {
        law_tree_is_root_and_children(before, pid, root);
        if pid != root {
            law_unrelated_processes_are_outside(after, root, Set::empty().insert(pid), pid);
        }
    }
    if in_tree(after, pid, root) {
        assert(b =~= a.insert(pid));
        lemma_total_rss_insert(after, a, pid);
    } else {
        assert(b =~= a);
    }
    lemma_same_total(before, after, a);
}

proof fn lemma_same_tree(
    before: Map<u32, ProcessStatus>,
    after: Map<u32, ProcessStatus>,
    new: u32,
    root: u32,
    pid: u32,
)
    requires
        !before.contains_key(new),
        after == before.insert(new, after[new]),
        new == root || forall|p: u32| #[trigger]
            before.contains_key(p) ==> before[p].ppid != new,
        pid != new,
    ensures
        in_tree(before, pid, root) == in_tree(after, pid, root),
{
    if in_tree(before, pid, root) {
        let steps = choose|steps: nat| ascends_to(before, pid, root, steps);
        lemma_same_ascent(before, after, new, root, pid, steps);
    }
    if in_tree(after, pid, root) {
        let steps = choose|steps: nat| ascends_to(after, pid, root, steps);
        lemma_same_ascent(before, after, new, root, pid, steps);
    }
}

proof fn lemma_same_ascent(
    before: Map<u32, ProcessStatus>,
    after: Map<u32, ProcessStatus>,
    new: u32,
    root: u32,
    pid: u32,
    steps: nat,
)
    requires
        !before.contains_key(new),
        after == before.insert(new, after[new]),
        new == root || forall|p: u32| #[trigger]
            before.contains_key(p) ==> before[p].ppid != new,
        pid != new || new == root,
    ensures
        ascends_to(before, pid, root, steps) == ascends_to(after, pid, root, steps),
    decreases steps,
{
    if pid != root && steps > 0 && before.contains_key(pid) {
        lemma_same_ascent(before, after, new, root, before[pid].ppid, (steps - 1) as nat);
    }
}

proof fn lemma_same_total(
    before: Map<u32, ProcessStatus>,
    after: Map<u32, ProcessStatus>,
    pids: Set<u32>,
)
    requires
        pids.finite(),
        forall|p: u32| pids.contains(p) ==> #[trigger] before[p] == after[p],
    ensures
        total_rss(before, pids) == total_rss(after, pids),
    decreases pids.len(),
{
    if pids.len() == 0 {
        assert(pids =~= Set::empty());
        lemma_total_rss_empty(before);
        lemma_total_rss_empty(after);
    } else {
        let p = pids.choose();
        let rest = pids.remove(p);
        lemma_same_total(before, after, rest);
        lemma_total_rss_insert(before, rest, p);
        lemma_total_rss_insert(after, rest, p);
        assert(rest.insert(p) =~= pids);
        assert(before[p] == after[p]);
    }
}

/// A sample raises the peak to itself where it is higher. A reset sets the
/// peak. Only a start starts the sampler, and counts as a sample the first
/// time. Before it nothing is reported.
pub proof fn law_sampler(s: Sampler, sample: u64)
    ensures
        bumped(s, sample).peak == if sample > s.peak {
            sample
        } else {
            s.peak
        },
        bumped(s, sample).started == s.started,
        after_reset(s, sample).peak == sample,
        after_reset(s, sample).started == s.started,
        after_start(s, sample).started,
        s.started ==> after_start(s, sample).peak == s.peak,
        !s.started ==> after_start(s, sample).peak == bumped(s, sample).peak,
        s.started ==> reported_peak(s) == s.peak,
        !s.started ==> reported_peak(s) == 0,
{
}

} // verus!
