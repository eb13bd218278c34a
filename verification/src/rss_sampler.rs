//! Process-tree resident-set sampler.
//!
//! The per-span RSS samples look at one process only. Workloads that fan out
//! into child processes hide most of their memory from that view. The sampler
//! sums `VmRSS` across the whole process subtree (a root process and all its
//! transitive descendants) and records the high-water mark, so a consumer can
//! report an accurate peak regardless of where the memory actually lives.

use std::collections::{HashMap, HashSet};

use vstd::prelude::*;

use crate::proc_status::{
    chars_of, field, first_word, leading_word, lemma_keys_exclude, lemma_lines_step, lines,
    parse_unsigned, parsed_unsigned, split_line, starts_with, strip_prefix, trim, trimmed,
};

verus! {

broadcast use vstd::std_specs::hash::group_hash_axioms;

/// What the sampler has recorded.
#[derive(Clone, Copy, Debug, PartialEq, Eq, Structural)]
pub struct Sampler {
    /// Whether the sampler was started.
    pub started: bool,
    /// Highest total, in bytes, since the start or the last reset.
    pub peak: u64,
}

/// One process of a `/proc` scan: its id and the text of its status file.
#[derive(Debug)]
pub struct ProcessEntry {
    pub pid: u32,
    pub status: String,
}

/// What the sampler uses of a process's status.
#[derive(Clone, Copy, Debug, PartialEq, Eq, Structural)]
pub struct ProcessStatus {
    /// Id of the parent process.
    pub ppid: u32,
    /// Resident-set size in bytes.
    pub rss: u64,
}

/// Parse the leading integer (kilobytes) of a status value like `\t 12345 kB`.
pub fn parse_kb(s: &[char]) -> (kb: u64)
    ensures
        kb == leading_kb(s@),
{
    match parse_unsigned(leading_word(s), u64::MAX) {
        Some(n) => n,
        None => 0,
    }
}

/// The leading integer of a value, or zero.
pub open spec fn leading_kb(s: Seq<char>) -> nat {
    match parsed_unsigned(first_word(s), u64::MAX as nat) {
        Some(n) => n,
        None => 0,
    }
}

/// A value that is an integer up to `u32::MAX`, or zero.
pub open spec fn id_of(s: Seq<char>) -> nat {
    match parsed_unsigned(trimmed(s), u32::MAX as nat) {
        Some(n) => n,
        None => 0,
    }
}

/// Kilobytes as bytes, cut off at `u64::MAX`.
pub open spec fn kb_to_bytes(kb: nat) -> nat {
    if kb * 1024 <= u64::MAX {
        kb * 1024
    } else {
        u64::MAX as nat
    }
}

/// Parent and resident-set size that a status text gives.
pub open spec fn status_of(text: Seq<char>) -> ProcessStatus {
    status_of_lines(lines(text))
}

pub open spec fn status_of_lines(lines: Seq<Seq<char>>) -> ProcessStatus {
    ProcessStatus {
        ppid: match field(lines, "PPid:"@) {
            Some(value) => id_of(value) as u32,
            None => 0,
        },
        rss: match field(lines, "VmRSS:"@) {
            Some(value) => kb_to_bytes(leading_kb(value)) as u64,
            None => 0,
        },
    }
}

/// The process that a directory entry of `/proc` stands for: its name is the
/// process id.
pub fn parse_pid(name: &str) -> (pid: Option<u32>)
    ensures
        pid == match parsed_unsigned(name@, u32::MAX as nat) {
            Some(n) => Some(n as u32),
            None => None,
        },
{
    let chars = chars_of(name);
    match parse_unsigned(chars.as_slice(), u32::MAX as u64) {
        Some(n) => Some(n as u32),
        None => None,
    }
}

/// Reads the parent and the resident-set size from a status text.
pub fn parse_status(text: &str) -> (status: ProcessStatus)
    ensures
        status == status_of(text@),
{
    let chars = chars_of(text);
    let mut rest: &[char] = chars.as_slice();
    let mut ppid: u32 = 0;
    let mut rss: u64 = 0;
    let ghost mut done: Seq<Seq<char>> = Seq::empty();
    proof {
        assert(done + lines(text@) =~= lines(text@));
    }
    while rest.len() > 0
        invariant
            lines(text@) == done + lines(rest@),
            ppid == status_of_lines(done).ppid,
            rss == status_of_lines(done).rss,
        decreases rest@.len(),
    {
        let (line, next) = split_line(rest);
        proof {
            lemma_lines_step(done, rest@);
            assert(done.push(line@).drop_last() =~= done);
            done = done.push(line@);
            reveal_strlit("PPid:");
            reveal_strlit("VmRSS:");
            if starts_with(line@, "PPid:"@) {
                lemma_keys_exclude(line@, "PPid:"@, "VmRSS:"@, 0);
            }
        }
        if let Some(value) = strip_prefix(line, "PPid:") {
            ppid = match parse_unsigned(trim(value), u32::MAX as u64) {
                Some(n) => n as u32,
                None => 0,
            };
        } else if let Some(value) = strip_prefix(line, "VmRSS:") {
            rss = match parse_kb(value).checked_mul(1024) {
                Some(bytes) => bytes,
                None => u64::MAX,
            };
        }
        rest = next;
    }
    assert(done + lines(rest@) =~= done);
    ProcessStatus { ppid, rss }
}

/// The processes of a scan by id. Where an id occurs twice, the later entry
/// counts.
pub open spec fn process_table(entries: Seq<ProcessEntry>) -> Map<u32, ProcessStatus>
    decreases entries.len(),
{
    if entries.len() == 0 {
        Map::empty()
    } else {
        process_table(entries.drop_last()).insert(
            entries.last().pid,
            status_of(entries.last().status@),
        )
    }
}

/// Whether `steps` steps from `pid` up to its parent, its parent's parent and
/// so on, or fewer, lead to `root`.
pub open spec fn ascends_to(
    table: Map<u32, ProcessStatus>,
    pid: u32,
    root: u32,
    steps: nat,
) -> bool
    decreases steps,
{
    ||| pid == root
    ||| steps > 0 && table.contains_key(pid) && ascends_to(
        table,
        table[pid].ppid,
        root,
        (steps - 1) as nat,
    )
}

/// Whether `pid` is `root` or one of its transitive descendants.
pub open spec fn in_tree(table: Map<u32, ProcessStatus>, pid: u32, root: u32) -> bool {
    exists|steps: nat| ascends_to(table, pid, root, steps)
}

/// The processes of the table that are `root` or descend from it.
pub open spec fn tree(table: Map<u32, ProcessStatus>, root: u32) -> Set<u32> {
    Set::new(|pid: u32| table.contains_key(pid) && in_tree(table, pid, root))
}

/// Sum of the resident-set sizes of a set of processes.
pub open spec fn total_rss(table: Map<u32, ProcessStatus>, pids: Set<u32>) -> nat {
    pids.fold(0nat, |sum: nat, pid: u32| sum + table[pid].rss as nat)
}

/// `n`, cut off at `u64::MAX`.
pub open spec fn capped(n: nat) -> nat {
    if n <= u64::MAX {
        n
    } else {
        u64::MAX as nat
    }
}

pub proof fn lemma_total_rss_empty(table: Map<u32, ProcessStatus>)
    ensures
        total_rss(table, Set::empty()) == 0,
{
    vstd::set::fold::lemma_fold_empty::<u32, nat>(
        0nat,
        |sum: nat, pid: u32| sum + table[pid].rss as nat,
    );
}

pub proof fn lemma_total_rss_insert(table: Map<u32, ProcessStatus>, pids: Set<u32>, pid: u32)
    requires
        pids.finite(),
        !pids.contains(pid),
    ensures
        total_rss(table, pids.insert(pid)) == total_rss(table, pids) + table[pid].rss,
{
    vstd::set::fold::lemma_fold_insert::<u32, nat>(
        pids,
        0nat,
        |sum: nat, pid: u32| sum + table[pid].rss as nat,
        pid,
    );
}

/// Reads every status of a scan: the processes by id, and their ids without
/// repetition.
fn read_processes(entries: &Vec<ProcessEntry>) -> (r: (HashMap<u32, ProcessStatus>, Vec<u32>))
    ensures
        r.0@ == process_table(entries@),
        r.1@.no_duplicates(),
        r.1@.to_set() == r.0@.dom(),
{
    let mut table: HashMap<u32, ProcessStatus> = HashMap::new();
    let mut pids: Vec<u32> = Vec::new();
    let mut i: usize = 0;
    assert(pids@.to_set() =~= table@.dom());
    while i < entries.len()
        invariant
            i <= entries@.len(),
            table@ == process_table(entries@.take(i as int)),
            pids@.no_duplicates(),
            pids@.to_set() == table@.dom(),
        decreases entries@.len() - i,
    {
        let entry = &entries[i];
        let status = parse_status(entry.status.as_str());
        let ghost before = table@.dom();
        let ghost listed = pids@;
        if table.insert(entry.pid, status).is_none() {
            pids.push(entry.pid);
            proof {
                assert forall|j: int| 0 <= j < listed.len() implies listed[j] != entry.pid by {
                    assert(listed.to_set().contains(listed[j]));
                }
                assert(pids@.to_set() =~= listed.to_set().insert(entry.pid)) by {
                    assert(pids@[pids@.len() - 1] == entry.pid);
                    assert forall|p: u32| listed.to_set().contains(p) implies pids@.contains(p) by {
                        let j = choose|j: int| 0 <= j < listed.len() && listed[j] == p;
                        assert(pids@[j] == p);
                    }
                }
            }
        }
        assert(table@.dom() =~= before.insert(entry.pid));
        assert(pids@.to_set() =~= table@.dom());
        assert(entries@.take(i + 1).drop_last() =~= entries@.take(i as int));
        i = i + 1;
    }
    assert(entries@.take(i as int) =~= entries@);
    (table, pids)
}

/// Whether `children` lists, for every process, exactly its children among
/// `pids`.
spec fn lists_children(
    children: Map<u32, Vec<u32>>,
    table: Map<u32, ProcessStatus>,
    pids: Set<u32>,
) -> bool {
    forall|parent: u32, pid: u32|
        #![trigger pids.contains(pid), children.contains_key(parent)]
        #![trigger children[parent]@.contains(pid)]
        (children.contains_key(parent) && children[parent]@.contains(pid)) <==> (pids.contains(pid)
            && table[pid].ppid == parent)
}

/// Lists the children of every process.
fn group_children(table: &HashMap<u32, ProcessStatus>, pids: &Vec<u32>) -> (children: HashMap<
    u32,
    Vec<u32>,
>)
    requires
        pids@.to_set() == table@.dom(),
    ensures
        lists_children(children@, table@, table@.dom()),
{
    let mut children: HashMap<u32, Vec<u32>> = HashMap::new();
    let mut i: usize = 0;
    while i < pids.len()
        invariant
            i <= pids@.len(),
            pids@.to_set() == table@.dom(),
            lists_children(children@, table@, pids@.take(i as int).to_set()),
        decreases pids@.len() - i,
    {
        let pid: u32 = pids[i];
        assert(pids@.to_set().contains(pid));
        let ghost before = children@;
        let ghost listed = pids@.take(i as int).to_set();
        if let Some(status) = table.get(&pid) {
            let kids = children.entry(status.ppid).or_insert(Vec::new());
            kids.push(pid);
        }
        proof {
            let ppid = table@[pid].ppid;
            let now = pids@.take(i + 1).to_set();
            assert(now =~= listed.insert(pid)) by {
                assert(pids@.take(i + 1) =~= pids@.take(i as int).push(pid));
                assert(pids@.take(i + 1)[i as int] == pid);
                assert forall|p: u32| listed.contains(p) implies now.contains(p) by {
                    let j = choose|j: int| 0 <= j < i && pids@.take(i as int)[j] == p;
                    assert(pids@.take(i + 1)[j] == p);
                }
            }
            let old_kids = if before.contains_key(ppid) {
                before[ppid]@
            } else {
                Seq::<u32>::empty()
            };
            assert(children@[ppid]@ == old_kids.push(pid));
            assert forall|parent: u32, p: u32|
                (children@.contains_key(parent) && children@[parent]@.contains(p)) <==> (
                now.contains(p) && table@[p].ppid == parent) by {
                assert(before.contains_key(parent) && before[parent]@.contains(p) <==> (
                listed.contains(p) && table@[p].ppid == parent));
                if parent == ppid {
                    if old_kids.contains(p) {
                        let j = choose|j: int| 0 <= j < old_kids.len() && old_kids[j] == p;
                        assert(children@[parent]@[j] == p);
                    }
                    assert(children@[parent]@[old_kids.len() as int] == pid);
                    if children@[parent]@.contains(p) && p != pid {
                        let j = choose|j: int|
                            0 <= j < children@[parent]@.len() && children@[parent]@[j] == p;
                        assert(old_kids[j] == p);
                    }
                }
            }
        }
        i = i + 1;
    }
    assert(pids@.take(i as int) =~= pids@);
    children
}

/// A set that holds `root` and, with a process, all its children holds the
/// whole tree.
proof fn lemma_closed_holds_tree(
    table: Map<u32, ProcessStatus>,
    root: u32,
    seen: Set<u32>,
    pid: u32,
    steps: nat,
)
    requires
        seen.contains(root),
        forall|p: u32| #[trigger]
            table.contains_key(p) && seen.contains(table[p].ppid) ==> seen.contains(p),
        ascends_to(table, pid, root, steps),
    ensures
        seen.contains(pid),
    decreases steps,
{
    if pid != root {
        lemma_closed_holds_tree(table, root, seen, table[pid].ppid, (steps - 1) as nat);
    }
}

/// Sum `VmRSS` (bytes) over a process and every transitive descendant, from a
/// single scan. Each status yields both `PPid:` (to rebuild the tree) and
/// `VmRSS:` (its resident size). The sum is cut off at `u64::MAX`, and a
/// process counts once even where the ids of the snapshot form a cycle.
pub fn current_tree_rss_bytes(entries: &Vec<ProcessEntry>, root: u32) -> (total: u64)
    ensures
        total == capped(
            total_rss(process_table(entries@), tree(process_table(entries@), root)),
        ),
{
    let (table, pids) = read_processes(entries);
    let children = group_children(&table, &pids);
    let ghost t = table@;
    let ghost everything = t.dom().insert(root);

    let mut total: u64 = 0;
    let mut seen: HashSet<u32> = HashSet::new();
    let mut stack: Vec<u32> = Vec::new();
    stack.push(root);
    proof {
        assert(t.dom().finite()) by {
            pids@.lemma_cardinality_of_set();
            vstd::seq_lib::seq_to_set_is_finite(pids@);
        }
        assert(ascends_to(t, root, root, 0));
        assert(seen@.intersect(t.dom()) =~= Set::empty());
        lemma_total_rss_empty(t);
        assert(stack@[0] == root);
    }
    while stack.len() > 0
        invariant
            t == table@,
            t.dom().finite(),
            everything == t.dom().insert(root),
            lists_children(children@, t, t.dom()),
            seen@.finite(),
            seen@.subset_of(everything),
            forall|p: u32| seen@.contains(p) ==> #[trigger] in_tree(t, p, root),
            forall|i: int|
                0 <= i < stack@.len() ==> in_tree(t, #[trigger] stack@[i], root)
                    && everything.contains(stack@[i]),
            seen@.contains(root) || stack@.contains(root),
            forall|p: u32|
                #![trigger t.contains_key(p)]
                t.contains_key(p) && seen@.contains(t[p].ppid) ==> seen@.contains(p)
                    || stack@.contains(p),
            total == capped(total_rss(t, seen@.intersect(t.dom()))),
        decreases everything.difference(seen@).len(), stack@.len(),
    {
        let ghost full = stack@;
        let ghost before = seen@;
        let pid: u32 = stack.pop().unwrap();
        let ghost waiting = stack@;
        assert(full =~= waiting.push(pid));
        assert(full[full.len() - 1] == pid);
        if seen.insert(pid) {
            proof {
                let counted = before.intersect(t.dom());
                if t.contains_key(pid) {
                    assert(seen@.intersect(t.dom()) =~= counted.insert(pid));
                    lemma_total_rss_insert(t, counted, pid);
                } else {
                    assert(seen@.intersect(t.dom()) =~= counted);
                }
                assert(everything.contains(pid)) by {
                    assert(in_tree(t, full[full.len() - 1], root));
                }
                assert(everything.difference(before).contains(pid));
                assert(everything.difference(seen@) =~= everything.difference(before).remove(pid));
            }
            if let Some(status) = table.get(&pid) {
                total = total.saturating_add(status.rss);
            }
            if let Some(kids) = children.get(&pid) {
                let mut i: usize = 0;
                assert(waiting + kids@.take(0) =~= waiting);
                assert(children@.contains_key(pid) && children@[pid] == kids);
                while i < kids.len()
                    invariant
                        i <= kids@.len(),
                        stack@ == waiting + kids@.take(i as int),
                    decreases kids@.len() - i,
                {
                    stack.push(kids[i]);
                    i = i + 1;
                    assert(waiting + kids@.take(i as int) =~= (waiting + kids@.take(i - 1)).push(
                        kids@[i - 1],
                    ));
                }
                proof {
                    assert(kids@.take(i as int) =~= kids@);
                    assert forall|j: int| 0 <= j < stack@.len() implies in_tree(
                        t,
                        #[trigger] stack@[j],
                        root,
                    ) && everything.contains(stack@[j]) by {
                        if j < waiting.len() {
                            assert(stack@[j] == full[j]);
                        } else {
                            let kid = stack@[j];
                            assert(kids@.contains(kid)) by {
                                assert(kids@[j - waiting.len()] == kid);
                            }
                            assert(children@[pid]@.contains(kid));
                            let steps = choose|steps: nat| ascends_to(t, pid, root, steps);
                            assert(ascends_to(t, kid, root, steps + 1));
                        }
                    }
                }
            }
        } else {
            assert(seen@ =~= before);
        }
        proof {
            assert forall|p: u32| full.contains(p) implies seen@.contains(p) || stack@.contains(p) by {
                let j = choose|j: int| 0 <= j < full.len() && full[j] == p;
                if j < waiting.len() {
                    assert(stack@[j] == p);
                }
            }
            assert forall|p: u32| #[trigger]
                t.contains_key(p) && seen@.contains(t[p].ppid) implies seen@.contains(p)
                || stack@.contains(p) by {
                if t[p].ppid == pid && !before.contains(pid) {
                    assert(t.dom().contains(p));
                    assert(children@.contains_key(pid) && children@[pid]@.contains(p));
                    let j = choose|j: int|
                        0 <= j < children@[pid]@.len() && children@[pid]@[j] == p;
                    assert(stack@[waiting.len() + j] == p);
                }
            }
        }
    }
    proof {
        assert(seen@.contains(root));
        assert forall|p: u32| tree(t, root).contains(p) implies seen@.contains(p) by {
            let steps = choose|steps: nat| ascends_to(t, p, root, steps);
            lemma_closed_holds_tree(t, root, seen@, p, steps);
        }
        assert(seen@.intersect(t.dom()) =~= tree(t, root));
    }
    total
}

/// The sampler after a sample of `sample` bytes.
pub open spec fn bumped(s: Sampler, sample: u64) -> Sampler {
    Sampler {
        peak: if sample > s.peak {
            sample
        } else {
            s.peak
        },
        ..s
    }
}

/// The sampler after a call of [`start`] that would sample `sample` bytes.
pub open spec fn after_start(s: Sampler, sample: u64) -> Sampler {
    if s.started {
        s
    } else {
        bumped(Sampler { started: true, ..s }, sample)
    }
}

/// The sampler after a reset at a total of `sample` bytes.
pub open spec fn after_reset(s: Sampler, sample: u64) -> Sampler {
    Sampler { peak: sample, ..s }
}

/// The sampler after a series of samples.
pub open spec fn after_samples(s: Sampler, samples: Seq<u64>) -> Sampler
    decreases samples.len(),
{
    if samples.len() == 0 {
        s
    } else {
        bumped(after_samples(s, samples.drop_last()), samples.last())
    }
}

/// The total of a scan.
pub open spec fn scan_total(entries: Seq<ProcessEntry>, root: u32) -> u64 {
    capped(total_rss(process_table(entries), tree(process_table(entries), root))) as u64
}

/// The peak that a sampler reports.
pub open spec fn reported_peak(s: Sampler) -> u64 {
    if s.started {
        s.peak
    } else {
        0
    }
}

/// Peak total resident-set size (bytes) observed across the process tree
/// since the sampler started, or since the last [`reset_peak_tree_rss`]. `0`
/// if the sampler was never started.
pub fn peak_tree_rss_bytes(sampler: &Sampler) -> (peak: u64)
    ensures
        peak == reported_peak(*sampler),
{
    if sampler.started {
        sampler.peak
    } else {
        0
    }
}

/// Reset the recorded peak to the current tree RSS. Call at the start of a
/// phase to measure that phase's peak in isolation.
pub fn reset_peak_tree_rss(sampler: &mut Sampler, entries: &Vec<ProcessEntry>, root: u32)
    ensures
        *final(sampler) == after_reset(*old(sampler), scan_total(entries@, root)),
{
    sampler.peak = current_tree_rss_bytes(entries, root);
}

/// Start the sampler and take an immediate sample, so that a consumer that
/// reads back quickly still sees a value. Idempotent: once the sampler is
/// started, extra calls change nothing. Returns whether this call started it,
/// in which case the caller sets up the periodic sampling.
pub fn start(sampler: &mut Sampler, entries: &Vec<ProcessEntry>, root: u32) -> (first: bool)
    ensures
        first == !old(sampler).started,
        *final(sampler) == after_start(*old(sampler), scan_total(entries@, root)),
{
    if sampler.started {
        return false;
    }
    sampler.started = true;
    bump_peak(sampler, current_tree_rss_bytes(entries, root));
    true
}

/// Record one sample: the peak grows to it where it is higher.
pub fn bump_peak(sampler: &mut Sampler, sample: u64)
    ensures
        *final(sampler) == bumped(*old(sampler), sample),
{
    if sample > sampler.peak {
        sampler.peak = sample;
    }
}

/// Starting the sampler again changes nothing, whatever the tree holds then.
pub proof fn law_start_is_idempotent(s: Sampler, first: u64, second: u64)
    ensures
        after_start(after_start(s, first), second) == after_start(s, first),
{
}

/// After a reset and any number of samples, the peak is the highest of the
/// total at the reset and the samples: what came before the reset is
/// forgotten, no sample exceeds the peak, and the peak is one of them.
pub proof fn law_peak_is_highest_since_reset(s: Sampler, at_reset: u64, samples: Seq<u64>)
    ensures
        ({
            let peak = after_samples(after_reset(s, at_reset), samples).peak;
            &&& at_reset <= peak
            &&& forall|i: int| 0 <= i < samples.len() ==> #[trigger] samples[i] <= peak
            &&& peak == at_reset || samples.contains(peak)
        }),
    decreases samples.len(),
{
    if samples.len() > 0 {
        let shorter = samples.drop_last();
        law_peak_is_highest_since_reset(s, at_reset, shorter);
        let before = after_samples(after_reset(s, at_reset), shorter).peak;
        let peak = after_samples(after_reset(s, at_reset), samples).peak;
        assert forall|i: int| 0 <= i < samples.len() implies #[trigger] samples[i] <= peak by {
            if i < shorter.len() {
                assert(shorter[i] == samples[i]);
            }
        }
        if peak == samples.last() {
            assert(samples[samples.len() - 1] == peak);
        } else if before != at_reset {
            let i = choose|i: int| 0 <= i < shorter.len() && shorter[i] == before;
            assert(samples[i] == before);
        }
    }
}

/// After the start and any number of samples, the peak is the highest of the
/// total at the start, the samples, and what a reset before the start left: no
/// sample exceeds the peak, and the peak is one of them. In a sampler that was
/// not reset, nothing but totals since the start count.
pub proof fn law_peak_is_highest_since_start(s: Sampler, at_start: u64, samples: Seq<u64>)
    requires
        !s.started,
    ensures
        ({
            let after = after_samples(after_start(s, at_start), samples);
            &&& after.started
            &&& s.peak <= after.peak
            &&& at_start <= after.peak
            &&& forall|i: int| 0 <= i < samples.len() ==> #[trigger] samples[i] <= after.peak
            &&& after.peak == s.peak || after.peak == at_start || samples.contains(after.peak)
            &&& s.peak == 0 ==> after.peak == at_start || samples.contains(after.peak)
        }),
    decreases samples.len(),
{
    if samples.len() > 0 {
        let shorter = samples.drop_last();
        law_peak_is_highest_since_start(s, at_start, shorter);
        let before = after_samples(after_start(s, at_start), shorter).peak;
        let peak = after_samples(after_start(s, at_start), samples).peak;
        assert forall|i: int| 0 <= i < samples.len() implies #[trigger] samples[i] <= peak by {
            if i < shorter.len() {
                assert(shorter[i] == samples[i]);
            }
        }
        if peak == samples.last() {
            assert(samples[samples.len() - 1] == peak);
        } else if shorter.contains(before) {
            let i = choose|i: int| 0 <= i < shorter.len() && shorter[i] == before;
            assert(samples[i] == before);
        }
    }
}

/// A read that follows the start of the sampler at once sees the sample that
/// the start took.
pub proof fn law_start_leaves_a_sample(s: Sampler, sample: u64)
    requires
        !s.started,
    ensures
        after_start(s, sample).started,
        after_start(s, sample).peak >= sample,
{
}

/// The part of a set that is also in a finite table has a finite sum of at
/// least each member's size.
proof fn lemma_total_rss_covers(table: Map<u32, ProcessStatus>, pids: Set<u32>, pid: u32)
    requires
        pids.finite(),
        pids.contains(pid),
    ensures
        total_rss(table, pids) >= table[pid].rss,
{
    let rest = pids.remove(pid);
    lemma_total_rss_insert(table, rest, pid);
    assert(rest.insert(pid) =~= pids);
}

/// A table that a scan gives is finite.
pub proof fn lemma_process_table_finite(entries: Seq<ProcessEntry>)
    ensures
        process_table(entries).dom().finite(),
    decreases entries.len(),
{
    if entries.len() > 0 {
        lemma_process_table_finite(entries.drop_last());
    }
}

/// The total of a tree includes the memory of the root process and of every
/// transitive descendant, up to the cut-off of the total.
pub proof fn law_total_includes_descendants(entries: Seq<ProcessEntry>, root: u32, pid: u32)
    requires
        process_table(entries).contains_key(pid),
        in_tree(process_table(entries), pid, root),
    ensures
        scan_total(entries, root) >= process_table(entries)[pid].rss,
{
    let table = process_table(entries);
    lemma_process_table_finite(entries);
    assert(tree(table, root).subset_of(table.dom()));
    vstd::set_lib::lemma_len_subset(tree(table, root), table.dom());
    lemma_total_rss_covers(table, tree(table, root), pid);
}

/// A child of a process of the tree is in the tree.
pub proof fn law_children_are_in_the_tree(
    table: Map<u32, ProcessStatus>,
    root: u32,
    parent: u32,
    pid: u32,
)
    requires
        in_tree(table, parent, root),
        table.contains_key(pid),
        table[pid].ppid == parent,
    ensures
        in_tree(table, pid, root),
{
    let steps = choose|steps: nat| ascends_to(table, parent, root, steps);
    assert(ascends_to(table, pid, root, steps + 1));
}

/// In a scan without repeated ids, a process's status is that of its entry.
proof fn lemma_process_table_entry(entries: Seq<ProcessEntry>, i: int)
    requires
        0 <= i < entries.len(),
        forall|j: int, k: int|
            0 <= j < k < entries.len() ==> #[trigger] entries[j].pid != #[trigger] entries[k].pid,
    ensures
        process_table(entries).contains_key(entries[i].pid),
        process_table(entries)[entries[i].pid] == status_of(entries[i].status@),
    decreases entries.len(),
{
    let shorter = entries.drop_last();
    if i < shorter.len() {
        assert forall|j: int, k: int| 0 <= j < k < shorter.len() implies #[trigger] shorter[j].pid
            != #[trigger] shorter[k].pid by {
            assert(shorter[j] == entries[j] && shorter[k] == entries[k]);
        }
        lemma_process_table_entry(shorter, i);
        assert(shorter[i] == entries[i]);
        assert(entries[i].pid != entries[entries.len() - 1].pid);
    }
}

/// Every process of a table stands in the scan.
proof fn lemma_process_table_source(entries: Seq<ProcessEntry>, pid: u32)
    requires
        process_table(entries).contains_key(pid),
    ensures
        exists|i: int| 0 <= i < entries.len() && #[trigger] entries[i].pid == pid,
    decreases entries.len(),
{
    if entries.last().pid == pid {
        assert(entries[entries.len() - 1].pid == pid);
    } else {
        let shorter = entries.drop_last();
        lemma_process_table_source(shorter, pid);
        let i = choose|i: int| 0 <= i < shorter.len() && #[trigger] shorter[i].pid == pid;
        assert(entries[i].pid == pid);
    }
}

/// The order in which a scan lists the processes does not matter: two scans
/// without repeated ids that list the same processes give the same total.
pub proof fn law_scan_order_is_irrelevant(
    a: Seq<ProcessEntry>,
    b: Seq<ProcessEntry>,
    root: u32,
)
    requires
        forall|j: int, k: int|
            0 <= j < k < a.len() ==> #[trigger] a[j].pid != #[trigger] a[k].pid,
        forall|j: int, k: int|
            0 <= j < k < b.len() ==> #[trigger] b[j].pid != #[trigger] b[k].pid,
        forall|x: ProcessEntry| a.contains(x) <==> b.contains(x),
    ensures
        scan_total(a, root) == scan_total(b, root),
{
    let (ta, tb) = (process_table(a), process_table(b));
    assert forall|pid: u32| #[trigger] ta.contains_key(pid) implies tb.contains_key(pid) && ta[pid]
        == tb[pid] by {
        lemma_process_table_source(a, pid);
        let i = choose|i: int| 0 <= i < a.len() && #[trigger] a[i].pid == pid;
        assert(a.contains(a[i]));
        let j = choose|j: int| 0 <= j < b.len() && b[j] == a[i];
        lemma_process_table_entry(a, i);
        lemma_process_table_entry(b, j);
    }
    assert forall|pid: u32| #[trigger] tb.contains_key(pid) implies ta.contains_key(pid) by {
        lemma_process_table_source(b, pid);
        let i = choose|i: int| 0 <= i < b.len() && #[trigger] b[i].pid == pid;
        assert(b.contains(b[i]));
        let j = choose|j: int| 0 <= j < a.len() && a[j] == b[i];
        lemma_process_table_entry(a, j);
    }
    assert(ta.dom() =~= tb.dom());
    assert(ta =~= tb);
}

} // verus!
