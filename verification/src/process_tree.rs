//! The command's processes: the root, and whatever descends from it.
use crate::binary64::{sum, Binary64, Num};
use vstd::prelude::*;

verus! {

/// A process as it is told from a later one with the same number.
#[derive(Clone, Copy, Debug, PartialEq, Eq, Structural)]
pub struct ProcessIdentity {
    /// The process number.
    pub pid: u32,
    /// When it started; zero where that is not known yet.
    pub start_time: u64,
}

/// One process of a snapshot.
#[derive(Clone, Copy, Debug)]
pub struct ProcessRecord {
    /// The process number.
    pub pid: u32,
    /// The number of the process that started it, where there is one.
    pub parent: Option<u32>,
    /// When it started.
    pub start_time: u64,
    /// The memory that it has resident, in bytes.
    pub memory: u64,
    /// The CPU time that it takes, in percent of one core.
    pub cpu: Binary64,
}

/// What a set of processes uses.
#[derive(Clone, Copy, Debug)]
pub struct Usage {
    /// The resident memory of all of them.
    pub rss_bytes: u64,
    /// The CPU time that all of them take, in percent of one core.
    pub cpu_percent: Binary64,
    /// How many there are.
    pub process_count: usize,
}

/// Whether no process number occurs twice in a snapshot.
pub open spec fn distinct(table: Seq<ProcessRecord>) -> bool {
    forall|i: int, j: int|
        0 <= i < j < table.len() ==> (#[trigger] table[i]).pid != (#[trigger] table[j]).pid
}

/// Whether a snapshot lists a process number.
pub open spec fn listed(table: Seq<ProcessRecord>, pid: u32) -> bool {
    exists|i: int| 0 <= i < table.len() && (#[trigger] table[i]).pid == pid
}

/// Where a snapshot lists a process number.
pub open spec fn place(table: Seq<ProcessRecord>, pid: u32) -> int {
    choose|i: int| 0 <= i < table.len() && (#[trigger] table[i]).pid == pid
}

/// What a snapshot says of a process number that it lists.
pub open spec fn record_of(table: Seq<ProcessRecord>, pid: u32) -> ProcessRecord {
    table[place(table, pid)]
}

/// The processes of a tree, by number, with their start times.
pub open spec fn known_map(ids: Seq<ProcessIdentity>) -> Map<u32, u64> {
    Map::new(
        |pid: u32| exists|i: int| 0 <= i < ids.len() && (#[trigger] ids[i]).pid == pid,
        |pid: u32|
            ids[choose|i: int| 0 <= i < ids.len() && (#[trigger] ids[i]).pid == pid].start_time,
    )
}

/// Whether no process number occurs twice among identities.
pub open spec fn distinct_ids(ids: Seq<ProcessIdentity>) -> bool {
    forall|i: int, j: int|
        0 <= i < j < ids.len() ==> (#[trigger] ids[i]).pid != (#[trigger] ids[j]).pid
}

/// Whether a process known to have started at a time is the one that a snapshot lists.
pub open spec fn survives(table: Seq<ProcessRecord>, pid: u32, start_time: u64) -> bool {
    listed(table, pid) && (start_time == 0 || record_of(table, pid).start_time == start_time)
}

/// The known processes that are still there.
pub open spec fn survivors(known: Map<u32, u64>, table: Seq<ProcessRecord>) -> Map<u32, u64> {
    Map::new(
        |pid: u32| known.contains_key(pid) && survives(table, pid, known[pid]),
        |pid: u32| known[pid],
    )
}

/// The processes that a new look starts from: those still there, and the root unless it is
/// retired.
pub open spec fn seeds(
    known: Map<u32, u64>,
    root: u32,
    retired: bool,
    table: Seq<ProcessRecord>,
) -> Map<u32, u64> {
    if !retired && listed(table, root) {
        survivors(known, table).insert(root, record_of(table, root).start_time)
    } else {
        survivors(known, table)
    }
}

/// Whether a process descends from one of `seeds` over at most `n` generations.
pub open spec fn descends(
    table: Seq<ProcessRecord>,
    seeds: Set<u32>,
    pid: u32,
    n: nat,
) -> bool
    decreases n,
{
    ||| seeds.contains(pid)
    ||| n > 0 && listed(table, pid) && (match record_of(table, pid).parent {
        Some(parent) => descends(table, seeds, parent, (n - 1) as nat),
        None => false,
    })
}

/// Whether a process descends from one of `seeds`, or is one.
pub open spec fn reached(table: Seq<ProcessRecord>, seeds: Set<u32>, pid: u32) -> bool {
    exists|n: nat| descends(table, seeds, pid, n)
}

/// The seeds and all that descends from them.
pub open spec fn family(seeds: Map<u32, u64>, table: Seq<ProcessRecord>) -> Map<u32, u64> {
    Map::new(
        |pid: u32| reached(table, seeds.dom(), pid),
        |pid: u32|
            if seeds.contains_key(pid) {
                seeds[pid]
            } else {
                record_of(table, pid).start_time
            },
    )
}

/// The resident memory of processes that a snapshot lists.
pub open spec fn total_memory(ids: Seq<ProcessIdentity>, table: Seq<ProcessRecord>) -> nat
    decreases ids.len(),
{
    if ids.len() == 0 {
        0
    } else {
        total_memory(ids.drop_last(), table) + record_of(table, ids.last().pid).memory as nat
    }
}

/// An amount, or what a `u64` reaches where it is more.
pub open spec fn held_to_u64(n: nat) -> u64 {
    if n > u64::MAX {
        u64::MAX
    } else {
        n as u64
    }
}

/// The CPU time of processes that a snapshot lists, added up in their order.
pub open spec fn total_cpu(ids: Seq<ProcessIdentity>, table: Seq<ProcessRecord>) -> Num
    decreases ids.len(),
{
    if ids.len() == 0 {
        Num::Finite { negative: false, units: 0 }
    } else {
        sum(total_cpu(ids.drop_last(), table), record_of(table, ids.last().pid).cpu@)
    }
}

/// The same identities once more.
pub fn copy_of(ids: &[ProcessIdentity]) -> (r: Vec<ProcessIdentity>)
    ensures
        r@ == ids@,
{
    let mut r: Vec<ProcessIdentity> = Vec::new();
    let mut i: usize = 0;
    while i < ids.len()
        invariant
            i <= ids@.len(),
            r@ =~= ids@.take(i as int),
        decreases ids@.len() - i,
    {
        r.push(ids[i]);
        i = i + 1;
    }
    proof {
        assert(r@ =~= ids@);
    }
    r
}

/// The command's processes.
pub struct ProcessTree {
    root: u32,
    retired: bool,
    observed: bool,
    known: Vec<ProcessIdentity>,
}

impl ProcessTree {
    /// The root's process number.
    pub closed spec fn root(self) -> u32 {
        self.root
    }

    /// Whether the root has been retired.
    pub closed spec fn retired(self) -> bool {
        self.retired
    }

    /// Whether the last look saw the root.
    pub closed spec fn observed(self) -> bool {
        self.observed
    }

    /// The processes, in the order in which they were found.
    pub closed spec fn ids(self) -> Seq<ProcessIdentity> {
        self.known@
    }

    /// The processes by number.
    pub open spec fn known(self) -> Map<u32, u64> {
        known_map(self.ids())
    }

    /// No process is there twice.
    pub open spec fn wf(self) -> bool {
        distinct_ids(self.ids())
    }

    /// A tree of which only the root's number is known.
    pub fn new(root: u32) -> (r: Self)
        ensures
            r.wf(),
            r.root() == root,
            !r.retired(),
            !r.observed(),
            r.ids() == seq![ProcessIdentity { pid: root, start_time: 0 }],
            r.known() == map![root => 0u64],
    {
        let mut known: Vec<ProcessIdentity> = Vec::new();
        known.push(ProcessIdentity { pid: root, start_time: 0 });
        let r = ProcessTree { root, retired: false, observed: false, known };
        proof {
            assert(r.ids() =~= seq![ProcessIdentity { pid: root, start_time: 0 }]);
            let ids = r.ids();
            assert(ids[0].pid == root);
            assert(r.known() =~= map![root => 0u64]);
        }
        r
    }

    /// Whether nothing is left of the tree.
    pub fn is_empty(&self) -> (r: bool)
        ensures
            r == (self.ids().len() == 0),
    {
        self.known.len() == 0
    }

    /// Whether the last look saw the root.
    pub fn observed_root(&self) -> (r: bool)
        ensures
            r == self.observed(),
    {
        self.observed
    }

    /// The processes, in the order in which they were found.
    pub fn identities(&self) -> (r: Vec<ProcessIdentity>)
        ensures
            r@ == self.ids(),
    {
        copy_of(self.known.as_slice())
    }

    /// Takes the root out of the tree for good: it has ended, and its number may come to name
    /// another process.
    pub fn retire_root(&mut self)
        requires
            old(self).wf(),
        ensures
            final(self).wf(),
            root_retired(*old(self), *final(self)),
    {
        let ghost before = self.known@;
        let ghost keep = |id: ProcessIdentity| id.pid != self.root;
        let mut known: Vec<ProcessIdentity> = Vec::new();
        let mut i: usize = 0;
        proof {
            assert(before.take(0).filter(keep) =~= seq![]) by {
                reveal(Seq::filter);
            }
        }
        while i < self.known.len()
            invariant
                i <= self.known@.len(),
                self.known@ == before,
                keep == (|id: ProcessIdentity| id.pid != self.root),
                known@ == before.take(i as int).filter(keep),
            decreases self.known@.len() - i,
        {
            proof {
                reveal(Seq::filter);
                assert(before.take(i + 1).drop_last() =~= before.take(i as int));
            }
            if self.known[i].pid != self.root {
                known.push(self.known[i]);
            }
            i = i + 1;
        }
        proof {
            assert(before.take(before.len() as int) =~= before);
            lemma_filter_ids(before, self.root);
        }
        self.known = known;
        self.retired = true;
    }
}

/// A look at a snapshot turns one tree into another: what is left of the processes, with the
/// root, and all that descends from them.
pub open spec fn refreshed(
    before: ProcessTree,
    after: ProcessTree,
    table: Seq<ProcessRecord>,
) -> bool {
    &&& after.root() == before.root()
    &&& after.retired() == before.retired()
    &&& after.observed() == (!before.retired() && listed(table, before.root()))
    &&& after.known() == family(
        seeds(before.known(), before.root(), before.retired(), table),
        table,
    )
}

/// The retiring of its root turns one tree into another.
pub open spec fn root_retired(before: ProcessTree, after: ProcessTree) -> bool {
    &&& after.root() == before.root()
    &&& after.retired()
    &&& after.observed() == before.observed()
    &&& after.known() == before.known().remove(before.root())
    &&& after.ids() == before.ids().filter(|id: ProcessIdentity| id.pid != before.root())
}

/// Taking one process out of distinct identities takes its number out of the map.
proof fn lemma_filter_ids(ids: Seq<ProcessIdentity>, root: u32)
    requires
        distinct_ids(ids),
    ensures
        distinct_ids(ids.filter(|id: ProcessIdentity| id.pid != root)),
        known_map(ids.filter(|id: ProcessIdentity| id.pid != root)) == known_map(ids).remove(root),
    decreases ids.len(),
{
    let keep = |id: ProcessIdentity| id.pid != root;
    reveal(Seq::filter);
    if ids.len() == 0 {
        assert(known_map(ids.filter(keep)) =~= known_map(ids).remove(root));
    } else {
        let short = ids.drop_last();
        let last = ids.last();
        assert(distinct_ids(short)) by {
            assert forall|i: int, j: int| 0 <= i < j < short.len() implies (
            #[trigger] short[i]).pid != (#[trigger] short[j]).pid by {
                assert(ids[i].pid != ids[j].pid);
            }
        }
        lemma_filter_ids(short, root);
        assert(short.push(last) =~= ids);
        lemma_push_id(short, last);
        let kept = short.filter(keep);
        if keep(last) {
            assert(ids.filter(keep) == kept.push(last));
            assert(!known_map(kept).contains_key(last.pid));
            assert forall|i: int| 0 <= i < kept.len() implies (#[trigger] kept[i]).pid
                != last.pid by {
                assert(known_map(kept).contains_key(kept[i].pid));
            }
            lemma_push_id(kept, last);
            assert(known_map(ids.filter(keep)) =~= known_map(ids).remove(root));
        } else {
            assert(known_map(ids.filter(keep)) =~= known_map(ids).remove(root));
        }
    }
}

/// One more identity is one more entry.
proof fn lemma_push_id(ids: Seq<ProcessIdentity>, id: ProcessIdentity)
    requires
        distinct_ids(ids.push(id)),
    ensures
        !known_map(ids).contains_key(id.pid),
        known_map(ids.push(id)) == known_map(ids).insert(id.pid, id.start_time),
{
    let more = ids.push(id);
    assert forall|i: int| 0 <= i < ids.len() implies (#[trigger] ids[i]).pid != id.pid by {
        assert(more[i].pid != more[ids.len() as int].pid);
    }
    assert(more[ids.len() as int] == id);
    assert forall|pid: u32| known_map(more).contains_key(pid) == known_map(ids).insert(
        id.pid,
        id.start_time,
    ).contains_key(pid) by {
        if known_map(ids).contains_key(pid) {
            let i = choose|i: int| 0 <= i < ids.len() && (#[trigger] ids[i]).pid == pid;
            assert(more[i].pid == pid);
        }
        if known_map(more).contains_key(pid) && pid != id.pid {
            let i = choose|i: int| 0 <= i < more.len() && (#[trigger] more[i]).pid == pid;
            assert(ids[i].pid == pid);
        }
    }
    assert forall|pid: u32| known_map(more).contains_key(pid) implies known_map(more)[pid]
        == known_map(ids).insert(id.pid, id.start_time)[pid] by {
        let i = choose|i: int| 0 <= i < more.len() && (#[trigger] more[i]).pid == pid;
        if pid != id.pid {
            let j = choose|j: int| 0 <= j < ids.len() && (#[trigger] ids[j]).pid == pid;
            assert(ids[i].pid == pid);
            assert(more[j].pid == pid);
            if i < j {
                assert(more[i].pid != more[j].pid);
            } else if j < i {
                assert(more[j].pid != more[i].pid);
            }
        } else {
            if i < ids.len() {
                assert(ids[i].pid != id.pid);
            }
        }
    }
    assert(known_map(more) =~= known_map(ids).insert(id.pid, id.start_time));
}

/// A number occurs where the map has it.
proof fn lemma_known_at(ids: Seq<ProcessIdentity>, i: int)
    requires
        distinct_ids(ids),
        0 <= i < ids.len(),
    ensures
        known_map(ids).contains_key(ids[i].pid),
        known_map(ids)[ids[i].pid] == ids[i].start_time,
{
    let pid = ids[i].pid;
    let j = choose|j: int| 0 <= j < ids.len() && (#[trigger] ids[j]).pid == pid;
    assert(ids[i].pid == pid);
    if i < j {
        assert(ids[i].pid != ids[j].pid);
    } else if j < i {
        assert(ids[j].pid != ids[i].pid);
    }
}

/// A snapshot's entry is what it says of its number.
proof fn lemma_record_at(table: Seq<ProcessRecord>, i: int)
    requires
        distinct(table),
        0 <= i < table.len(),
    ensures
        listed(table, table[i].pid),
        record_of(table, table[i].pid) == table[i],
{
    let pid = table[i].pid;
    let j = place(table, pid);
    assert(table[i].pid == pid);
    if i < j {
        assert(table[i].pid != table[j].pid);
    } else if j < i {
        assert(table[j].pid != table[i].pid);
    }
}

/// Where a snapshot lists a process number.
fn find_record(table: &[ProcessRecord], pid: u32) -> (r: Option<usize>)
    requires
        distinct(table@),
    ensures
        match r {
            Some(i) => i < table@.len() && table@[i as int].pid == pid && listed(table@, pid)
                && record_of(table@, pid) == table@[i as int],
            None => !listed(table@, pid),
        },
{
    let mut i: usize = 0;
    while i < table.len()
        invariant
            i <= table@.len(),
            distinct(table@),
            forall|j: int| 0 <= j < i ==> (#[trigger] table@[j]).pid != pid,
        decreases table@.len() - i,
    {
        if table[i].pid == pid {
            proof {
                lemma_record_at(table@, i as int);
            }
            return Some(i);
        }
        i = i + 1;
    }
    None
}

/// Where identities hold a process number.
fn find_id(ids: &Vec<ProcessIdentity>, pid: u32) -> (r: Option<usize>)
    ensures
        match r {
            Some(i) => i < ids@.len() && ids@[i as int].pid == pid && known_map(
                ids@,
            ).contains_key(pid),
            None => !known_map(ids@).contains_key(pid),
        },
{
    let mut i: usize = 0;
    while i < ids.len()
        invariant
            i <= ids@.len(),
            forall|j: int| 0 <= j < i ==> (#[trigger] ids@[j]).pid != pid,
        decreases ids@.len() - i,
    {
        if ids[i].pid == pid {
            return Some(i);
        }
        i = i + 1;
    }
    None
}

/// One more identity, distinct from the others.
proof fn lemma_push_distinct(ids: Seq<ProcessIdentity>, id: ProcessIdentity)
    requires
        distinct_ids(ids),
        !known_map(ids).contains_key(id.pid),
    ensures
        distinct_ids(ids.push(id)),
        known_map(ids.push(id)) == known_map(ids).insert(id.pid, id.start_time),
{
    let more = ids.push(id);
    assert forall|i: int, j: int| 0 <= i < j < more.len() implies (#[trigger] more[i]).pid != (
    #[trigger] more[j]).pid by {
        assert(more[i] == ids[i]);
        if j < ids.len() {
            assert(ids[i].pid != ids[j].pid);
        } else {
            if ids[i].pid == id.pid {
                assert(known_map(ids).contains_key(id.pid));
            }
        }
    }
    lemma_push_id(ids, id);
}

/// A new start time for a number that is there.
proof fn lemma_update_id(ids: Seq<ProcessIdentity>, i: int, id: ProcessIdentity)
    requires
        distinct_ids(ids),
        0 <= i < ids.len(),
        ids[i].pid == id.pid,
    ensures
        distinct_ids(ids.update(i, id)),
        known_map(ids.update(i, id)) == known_map(ids).insert(id.pid, id.start_time),
{
    let next = ids.update(i, id);
    assert forall|a: int, b: int| 0 <= a < b < next.len() implies (#[trigger] next[a]).pid != (
    #[trigger] next[b]).pid by {
        assert(next[a].pid == ids[a].pid);
        assert(next[b].pid == ids[b].pid);
    }
    assert forall|pid: u32| known_map(next).contains_key(pid) == known_map(ids).insert(
        id.pid,
        id.start_time,
    ).contains_key(pid) by {
        if known_map(ids).contains_key(pid) {
            let j = choose|j: int| 0 <= j < ids.len() && (#[trigger] ids[j]).pid == pid;
            assert(next[j].pid == pid);
        }
        if known_map(next).contains_key(pid) {
            let j = choose|j: int| 0 <= j < next.len() && (#[trigger] next[j]).pid == pid;
            assert(ids[j].pid == pid);
        }
        assert(next[i].pid == id.pid);
    }
    assert forall|pid: u32| known_map(next).contains_key(pid) implies known_map(next)[pid]
        == known_map(ids).insert(id.pid, id.start_time)[pid] by {
        let j = choose|j: int| 0 <= j < next.len() && (#[trigger] next[j]).pid == pid;
        lemma_known_at(next, j);
        assert(ids[j].pid == pid);
        lemma_known_at(ids, j);
        if pid == id.pid && j != i {
            if i < j {
                assert(ids[i].pid != ids[j].pid);
            } else {
                assert(ids[j].pid != ids[i].pid);
            }
        }
    }
    assert(known_map(next) =~= known_map(ids).insert(id.pid, id.start_time));
}

/// The known processes that are still there.
fn keep_survivors(known: &Vec<ProcessIdentity>, table: &[ProcessRecord]) -> (r: Vec<
    ProcessIdentity,
>)
    requires
        distinct_ids(known@),
        distinct(table@),
    ensures
        distinct_ids(r@),
        known_map(r@) == survivors(known_map(known@), table@),
{
    let mut r: Vec<ProcessIdentity> = Vec::new();
    let mut i: usize = 0;
    proof {
        assert(known_map(r@) =~= survivors(known_map(known@.take(0)), table@));
    }
    while i < known.len()
        invariant
            i <= known@.len(),
            distinct_ids(known@),
            distinct(table@),
            distinct_ids(r@),
            known_map(r@) == survivors(known_map(known@.take(i as int)), table@),
        decreases known@.len() - i,
    {
        let id: ProcessIdentity = known[i];
        let ghost head = known@.take(i as int);
        proof {
            assert(known@.take(i + 1) =~= head.push(id));
            assert forall|a: int, b: int| 0 <= a < b < head.push(id).len() implies (
            #[trigger] head.push(id)[a]).pid != (#[trigger] head.push(id)[b]).pid by {
                assert(known@[a].pid != known@[b].pid);
            }
            lemma_push_id(head, id);
        }
        let alive: bool = match find_record(table, id.pid) {
            Some(j) => id.start_time == 0 || table[j].start_time == id.start_time,
            None => false,
        };
        if alive {
            proof {
                lemma_push_distinct(r@, id);
                assert(known_map(r@.push(id)) =~= survivors(known_map(head.push(id)), table@));
            }
            r.push(id);
        } else {
            proof {
                assert(known_map(r@) =~= survivors(known_map(head.push(id)), table@));
            }
        }
        i = i + 1;
    }
    proof {
        assert(known@.take(known@.len() as int) =~= known@);
    }
    r
}

/// How many of the first `n` entries of a snapshot are not known.
spec fn pending(table: Seq<ProcessRecord>, known: Set<u32>, n: nat) -> nat
    decreases n,
{
    if n == 0 {
        0
    } else {
        pending(table, known, (n - 1) as nat) + (if known.contains(table[n - 1].pid) {
            0nat
        } else {
            1nat
        })
    }
}

/// Knowing more leaves less pending.
proof fn lemma_pending_shrinks(
    table: Seq<ProcessRecord>,
    known: Set<u32>,
    pid: u32,
    n: nat,
    i: int,
)
    requires
        n <= table.len(),
        !known.contains(pid),
        0 <= i < table.len(),
        table[i].pid == pid,
    ensures
        pending(table, known.insert(pid), n) <= pending(table, known, n),
        i < n ==> pending(table, known.insert(pid), n) < pending(table, known, n),
    decreases n,
{
    if n > 0 {
        lemma_pending_shrinks(table, known, pid, (n - 1) as nat, i);
    }
}

/// What is known already is a part of the family, with the family's start times.
spec fn within_family(known: Map<u32, u64>, seeds: Map<u32, u64>, table: Seq<ProcessRecord>) -> bool {
    &&& forall|pid: u32| #[trigger]
        known.contains_key(pid) ==> reached(table, seeds.dom(), pid) && known[pid] == family(
            seeds,
            table,
        )[pid]
    &&& forall|pid: u32| seeds.contains_key(pid) ==> #[trigger] known.contains_key(pid)
}

/// Where every child of a known process is known, the whole family is.
proof fn lemma_closed_is_family(
    known: Map<u32, u64>,
    seeds: Map<u32, u64>,
    table: Seq<ProcessRecord>,
    pid: u32,
    n: nat,
)
    requires
        distinct(table),
        within_family(known, seeds, table),
        forall|i: int|
            0 <= i < table.len() ==> ((#[trigger] table[i]).parent matches Some(p)
                ==> known.contains_key(p) ==> known.contains_key(table[i].pid)),
        descends(table, seeds.dom(), pid, n),
    ensures
        known.contains_key(pid),
    decreases n,
{
    if !seeds.dom().contains(pid) {
        let parent = record_of(table, pid).parent->0;
        lemma_closed_is_family(known, seeds, table, parent, (n - 1) as nat);
        let i = place(table, pid);
        assert(table[i].parent == Some(parent));
    }
}

/// A child of a family member belongs to the family.
proof fn lemma_child_reached(table: Seq<ProcessRecord>, seeds: Set<u32>, i: int, parent: u32)
    requires
        distinct(table),
        0 <= i < table.len(),
        table[i].parent == Some(parent),
        reached(table, seeds, parent),
    ensures
        reached(table, seeds, table[i].pid),
{
    let n = choose|n: nat| descends(table, seeds, parent, n);
    lemma_record_at(table, i);
    assert(descends(table, seeds, table[i].pid, n + 1));
}

/// Adds to the seeds all that descends from them.
fn add_descendants(known: &mut Vec<ProcessIdentity>, table: &[ProcessRecord])
    requires
        distinct_ids(old(known)@),
        distinct(table@),
    ensures
        distinct_ids(final(known)@),
        known_map(final(known)@) == family(known_map(old(known)@), table@),
{
    let ghost start = known_map(known@);
    let mut growing: bool = true;
    proof {
        assert forall|pid: u32| #[trigger] start.contains_key(pid) implies reached(
            table@,
            start.dom(),
            pid,
        ) && start[pid] == family(start, table@)[pid] by {
            assert(descends(table@, start.dom(), pid, 0));
        }
    }
    while growing
        invariant
            distinct_ids(known@),
            distinct(table@),
            within_family(known_map(known@), start, table@),
            !growing ==> forall|i: int|
                0 <= i < table@.len() ==> ((#[trigger] table@[i]).parent matches Some(p)
                    ==> known_map(known@).contains_key(p) ==> known_map(known@).contains_key(
                    table@[i].pid,
                )),
        decreases
            pending(table@, known_map(known@).dom(), table@.len()) + (if growing {
                1nat
            } else {
                0nat
            }),
    {
        growing = false;
        let ghost round = pending(table@, known_map(known@).dom(), table@.len());
        let mut i: usize = 0;
        while i < table.len()
            invariant
                i <= table@.len(),
                distinct_ids(known@),
                distinct(table@),
                within_family(known_map(known@), start, table@),
                pending(table@, known_map(known@).dom(), table@.len()) <= round,
                growing ==> pending(table@, known_map(known@).dom(), table@.len()) < round,
                !growing ==> forall|j: int|
                    0 <= j < i ==> ((#[trigger] table@[j]).parent matches Some(p) ==> known_map(
                        known@,
                    ).contains_key(p) ==> known_map(known@).contains_key(table@[j].pid)),
            decreases table@.len() - i,
        {
            let record: ProcessRecord = table[i];
            if let Some(parent) = record.parent {
                if find_id(known, parent).is_some() && find_id(known, record.pid).is_none() {
                    let id = ProcessIdentity { pid: record.pid, start_time: record.start_time };
                    proof {
                        let now = known_map(known@);
                        lemma_push_distinct(known@, id);
                        lemma_pending_shrinks(
                            table@,
                            now.dom(),
                            id.pid,
                            table@.len(),
                            i as int,
                        );
                        assert(now.insert(id.pid, id.start_time).dom() =~= now.dom().insert(
                            id.pid,
                        ));
                        assert(table@[i as int] == record);
                        lemma_child_reached(table@, start.dom(), i as int, parent);
                        lemma_record_at(table@, i as int);
                        assert(!start.contains_key(id.pid));
                    }
                    known.push(id);
                    growing = true;
                }
            }
            i = i + 1;
        }
    }
    proof {
        let now = known_map(known@);
        assert forall|pid: u32| reached(table@, start.dom(), pid) implies now.contains_key(
            pid,
        ) by {
            let n = choose|n: nat| descends(table@, start.dom(), pid, n);
            lemma_closed_is_family(now, start, table@, pid, n);
        }
        assert(now =~= family(start, table@));
    }
}

/// What processes use that a snapshot lists.
fn measure(known: &Vec<ProcessIdentity>, table: &[ProcessRecord]) -> (r: Usage)
    requires
        distinct(table@),
        forall|i: int| 0 <= i < known@.len() ==> listed(table@, (#[trigger] known@[i]).pid),
    ensures
        r.rss_bytes == held_to_u64(total_memory(known@, table@)),
        r.cpu_percent@ == total_cpu(known@, table@),
        r.process_count == known@.len(),
{
    let mut rss_bytes: u64 = 0;
    let mut cpu_percent: Binary64 = Binary64::zero(false);
    let mut process_count: usize = 0;
    while process_count < known.len()
        invariant
            process_count <= known@.len(),
            distinct(table@),
            forall|i: int| 0 <= i < known@.len() ==> listed(table@, (#[trigger] known@[i]).pid),
            rss_bytes == held_to_u64(total_memory(known@.take(process_count as int), table@)),
            cpu_percent@ == total_cpu(known@.take(process_count as int), table@),
        decreases known@.len() - process_count,
    {
        proof {
            let next = known@.take(process_count + 1);
            assert(next.drop_last() =~= known@.take(process_count as int));
            assert(next.last() == known@[process_count as int]);
            assert(listed(table@, known@[process_count as int].pid));
        }
        if let Some(j) = find_record(table, known[process_count].pid) {
            rss_bytes = rss_bytes.saturating_add(table[j].memory);
            cpu_percent = cpu_percent.plus(table[j].cpu);
        }
        process_count = process_count + 1;
    }
    proof {
        assert(known@.take(known@.len() as int) =~= known@);
    }
    Usage { rss_bytes, cpu_percent, process_count }
}

/// Every family member is listed, where every seed is.
proof fn lemma_family_listed(seeds: Map<u32, u64>, table: Seq<ProcessRecord>)
    requires
        forall|pid: u32| #[trigger] seeds.contains_key(pid) ==> listed(table, pid),
    ensures
        forall|pid: u32| #[trigger] family(seeds, table).contains_key(pid) ==> listed(table, pid),
{
    assert forall|pid: u32| #[trigger] family(seeds, table).contains_key(pid) implies listed(
        table,
        pid,
    ) by {
        let n = choose|n: nat| descends(table, seeds.dom(), pid, n);
        assert(descends(table, seeds.dom(), pid, n));
        assert(seeds.dom().contains(pid) ==> seeds.contains_key(pid));
    }
}

impl ProcessTree {
    /// Looks at the processes anew: drops those that have ended or whose number names another
    /// process now, takes in all that descends from the rest, and says what the tree uses.
    pub fn refresh(&mut self, table: &[ProcessRecord]) -> (usage: Usage)
        requires
            old(self).wf(),
            distinct(table@),
        ensures
            final(self).wf(),
            refreshed(*old(self), *final(self), table@),
            forall|pid: u32| #[trigger] final(self).known().contains_key(pid) ==> listed(table@, pid),
            usage.rss_bytes == held_to_u64(total_memory(final(self).ids(), table@)),
            usage.cpu_percent@ == total_cpu(final(self).ids(), table@),
            usage.process_count == final(self).ids().len(),
    {
        let mut known: Vec<ProcessIdentity> = keep_survivors(&self.known, table);
        let mut observed: bool = false;
        if !self.retired {
            if let Some(i) = find_record(table, self.root) {
                observed = true;
                let id = ProcessIdentity { pid: self.root, start_time: table[i].start_time };
                match find_id(&known, self.root) {
                    Some(j) => {
                        proof {
                            lemma_update_id(known@, j as int, id);
                        }
                        known.set(j, id);
                    },
                    None => {
                        proof {
                            lemma_push_distinct(known@, id);
                        }
                        known.push(id);
                    },
                }
            }
        }
        let ghost from = known_map(known@);
        proof {
            assert(from == seeds(self.known(), self.root, self.retired, table@));
            assert forall|pid: u32| #[trigger] from.contains_key(pid) implies listed(
                table@,
                pid,
            ) by {}
            lemma_family_listed(from, table@);
        }
        add_descendants(&mut known, table);
        proof {
            assert forall|i: int| 0 <= i < known@.len() implies listed(
                table@,
                (#[trigger] known@[i]).pid,
            ) by {
                lemma_known_at(known@, i);
                assert(family(from, table@).contains_key(known@[i].pid));
            }
        }
        let usage: Usage = measure(&known, table);
        self.known = known;
        self.observed = observed;
        usage
    }
}

/// What descends from a family belongs to it.
proof fn lemma_family_closed(
    seeds: Map<u32, u64>,
    table: Seq<ProcessRecord>,
    pid: u32,
    n: nat,
)
    requires
        descends(table, family(seeds, table).dom(), pid, n),
    ensures
        family(seeds, table).contains_key(pid),
    decreases n,
{
    let members = family(seeds, table);
    if !members.dom().contains(pid) {
        let parent = record_of(table, pid).parent->0;
        lemma_family_closed(seeds, table, parent, (n - 1) as nat);
        let m = choose|m: nat| descends(table, seeds.dom(), parent, m);
        assert(descends(table, seeds.dom(), pid, m + 1));
    }
}

/// A second look at the same snapshot finds the same processes.
pub proof fn law_second_look_changes_nothing(
    known: Map<u32, u64>,
    root: u32,
    retired: bool,
    table: Seq<ProcessRecord>,
)
    ensures
        ({
            let once = family(seeds(known, root, retired, table), table);
            family(seeds(once, root, retired, table), table) == once
        }),
{
    let first = seeds(known, root, retired, table);
    let once = family(first, table);
    assert forall|pid: u32| #[trigger] first.contains_key(pid) implies listed(table, pid) by {}
    lemma_family_listed(first, table);
    assert forall|pid: u32| #[trigger] once.contains_key(pid) implies survives(
        table,
        pid,
        once[pid],
    ) by {
        assert(listed(table, pid));
    }
    assert(survivors(once, table) =~= once);
    if !retired && listed(table, root) {
        assert(first.contains_key(root));
        assert(descends(table, first.dom(), root, 0));
        assert(once.contains_key(root));
    }
    let again = seeds(once, root, retired, table);
    assert(again =~= once);
    assert forall|pid: u32| family(once, table).contains_key(pid) implies once.contains_key(
        pid,
    ) by {
        let n = choose|n: nat| descends(table, once.dom(), pid, n);
        lemma_family_closed(first, table, pid, n);
    }
    assert forall|pid: u32| once.contains_key(pid) implies family(once, table).contains_key(
        pid,
    ) by {
        assert(descends(table, once.dom(), pid, 0));
    }
    assert(family(once, table) =~= once);
}

/// A process whose number was known for another one is left out, unless it descends from the
/// tree itself or is the root.
pub proof fn law_reused_number_is_left_out(
    known: Map<u32, u64>,
    root: u32,
    retired: bool,
    table: Seq<ProcessRecord>,
    pid: u32,
)
    requires
        listed(table, pid),
        known.contains_key(pid),
        known[pid] != 0,
        record_of(table, pid).start_time != known[pid],
        retired || pid != root,
        record_of(table, pid).parent matches Some(parent) ==> !family(
            seeds(known, root, retired, table),
            table,
        ).contains_key(parent),
    ensures
        !family(seeds(known, root, retired, table), table).contains_key(pid),
{
    let first = seeds(known, root, retired, table);
    if family(first, table).contains_key(pid) {
        let n = choose|n: nat| descends(table, first.dom(), pid, n);
        assert(!first.dom().contains(pid));
        let parent = record_of(table, pid).parent->0;
        assert(descends(table, first.dom(), parent, (n - 1) as nat));
        assert(family(first, table).contains_key(parent));
    }
}

/// Every child of a process in the tree is in the tree, whatever group or session it made.
pub proof fn law_children_belong_to_the_tree(
    known: Map<u32, u64>,
    root: u32,
    retired: bool,
    table: Seq<ProcessRecord>,
    child: u32,
    parent: u32,
)
    requires
        listed(table, child),
        record_of(table, child).parent == Some(parent),
        family(seeds(known, root, retired, table), table).contains_key(parent),
    ensures
        family(seeds(known, root, retired, table), table).contains_key(child),
{
    let first = seeds(known, root, retired, table);
    let n = choose|n: nat| descends(table, first.dom(), parent, n);
    assert(descends(table, first.dom(), child, n + 1));
}

/// A process in the tree that is still there stays in the tree.
pub proof fn law_survivors_stay(
    known: Map<u32, u64>,
    root: u32,
    retired: bool,
    table: Seq<ProcessRecord>,
    pid: u32,
)
    requires
        known.contains_key(pid),
        survives(table, pid, known[pid]),
    ensures
        family(seeds(known, root, retired, table), table).contains_key(pid),
{
    let first = seeds(known, root, retired, table);
    assert(first.contains_key(pid));
    assert(descends(table, first.dom(), pid, 0));
}

/// The memory of processes that are listed one after the other adds up: no process counts for
/// nothing, and one counts for what the snapshot says of it.
pub proof fn law_memory_adds_up(
    a: Seq<ProcessIdentity>,
    b: Seq<ProcessIdentity>,
    id: ProcessIdentity,
    table: Seq<ProcessRecord>,
)
    ensures
        total_memory(seq![], table) == 0,
        total_memory(seq![id], table) == record_of(table, id.pid).memory,
        total_memory(a.push(id), table) == total_memory(a, table) + record_of(
            table,
            id.pid,
        ).memory,
        total_memory(a + b, table) == total_memory(a, table) + total_memory(b, table),
    decreases b.len(),
{
    let single = seq![id];
    assert(single.drop_last() =~= Seq::<ProcessIdentity>::empty());
    assert(total_memory(single.drop_last(), table) == 0);
    assert(single.last() == id);
    assert(total_memory(single, table) == record_of(table, id.pid).memory);
    assert(a.push(id).drop_last() =~= a);
    if b.len() == 0 {
        assert(a + b =~= a);
    } else {
        law_memory_adds_up(a, b.drop_last(), id, table);
        assert((a + b).drop_last() =~= a + b.drop_last());
        assert((a + b).last() == b.last());
    }
}

/// A tree has at least the memory of any process in it, and of any two together.
pub proof fn law_no_process_is_left_out_of_the_memory(
    ids: Seq<ProcessIdentity>,
    table: Seq<ProcessRecord>,
    i: int,
    j: int,
)
    requires
        0 <= i < j < ids.len(),
    ensures
        total_memory(ids, table) >= record_of(table, ids[i].pid).memory + record_of(
            table,
            ids[j].pid,
        ).memory,
        total_memory(ids, table) == total_memory(ids.remove(j), table) + record_of(
            table,
            ids[j].pid,
        ).memory,
{
    let before = ids.take(j);
    let after = ids.skip(j + 1);
    assert(ids =~= before.push(ids[j]) + after);
    assert(ids.remove(j) =~= before + after);
    law_memory_adds_up(before.push(ids[j]), after, ids[j], table);
    law_memory_adds_up(before, after, ids[j], table);
    let first = before.take(i);
    let middle = before.skip(i + 1);
    assert(before =~= first.push(before[i]) + middle);
    law_memory_adds_up(first.push(before[i]), middle, before[i], table);
    law_memory_adds_up(first, middle, before[i], table);
}

/// The order in which processes are listed does not matter to their memory.
pub proof fn law_memory_has_no_order(
    a: Seq<ProcessIdentity>,
    b: Seq<ProcessIdentity>,
    table: Seq<ProcessRecord>,
)
    ensures
        total_memory(a + b, table) == total_memory(b + a, table),
{
    if a.len() > 0 {
        law_memory_adds_up(a, b, a[0], table);
        law_memory_adds_up(b, a, a[0], table);
    } else {
        assert(a + b =~= b + a);
    }
}

/// Memory that can be counted is told as it is; more is told as the most that can be.
pub proof fn law_memory_is_told_as_it_is(n: nat)
    ensures
        n <= 18_446_744_073_709_551_615 ==> held_to_u64(n) == n,
        n > 18_446_744_073_709_551_615 ==> held_to_u64(n) == 18_446_744_073_709_551_615,
{
}

/// The CPU time of processes adds up one after the other, from none.
pub proof fn law_cpu_time_adds_up(
    ids: Seq<ProcessIdentity>,
    id: ProcessIdentity,
    table: Seq<ProcessRecord>,
)
    ensures
        total_cpu(seq![], table) == (Num::Finite { negative: false, units: 0 }),
        total_cpu(ids.push(id), table) == sum(
            total_cpu(ids, table),
            record_of(table, id.pid).cpu@,
        ),
{
    assert(ids.push(id).drop_last() =~= ids);
}

/// What a snapshot says of a process is the one record with its number.
pub proof fn law_records_are_found(table: Seq<ProcessRecord>, i: int, pid: u32)
    requires
        distinct(table),
        0 <= i < table.len(),
    ensures
        listed(table, table[i].pid),
        record_of(table, table[i].pid) == table[i],
        (forall|k: int| 0 <= k < table.len() ==> (#[trigger] table[k]).pid != pid) ==> !listed(
            table,
            pid,
        ),
{
    let p = place(table, table[i].pid);
    assert(listed(table, table[i].pid)) by {
        assert(table[i].pid == table[i].pid);
    }
    if p < i {
        assert(table[p].pid != table[i].pid);
    } else if i < p {
        assert(table[i].pid != table[p].pid);
    }
}

/// No one is in a tree without descent: what a look finds is within every set of processes that
/// holds those it starts from and, with a process, its children.
pub proof fn law_no_one_else_belongs_to_the_tree(
    known: Map<u32, u64>,
    root: u32,
    retired: bool,
    table: Seq<ProcessRecord>,
    others: Set<u32>,
    pid: u32,
)
    requires
        forall|p: u32| #[trigger]
            known.contains_key(p) && listed(table, p) && (known[p] == 0 || record_of(
                table,
                p,
            ).start_time == known[p]) ==> others.contains(p),
        !retired && listed(table, root) ==> others.contains(root),
        forall|c: u32, p: u32|
            #![trigger others.contains(p), listed(table, c)]
            listed(table, c) && record_of(table, c).parent == Some(p) && others.contains(p)
                ==> others.contains(c),
        family(seeds(known, root, retired, table), table).contains_key(pid),
    ensures
        others.contains(pid),
{
    let first = seeds(known, root, retired, table).dom();
    assert forall|p: u32| first.contains(p) implies others.contains(p) by {
        if known.contains_key(p) {
        }
    }
    let n = choose|n: nat| descends(table, first, pid, n);
    lemma_descends_within(table, first, others, pid, n);
}

/// Descent stays within a set that holds the children of its members.
proof fn lemma_descends_within(
    table: Seq<ProcessRecord>,
    first: Set<u32>,
    others: Set<u32>,
    pid: u32,
    n: nat,
)
    requires
        descends(table, first, pid, n),
        forall|p: u32| first.contains(p) ==> others.contains(p),
        forall|c: u32, p: u32|
            #![trigger others.contains(p), listed(table, c)]
            listed(table, c) && record_of(table, c).parent == Some(p) && others.contains(p)
                ==> others.contains(c),
    ensures
        others.contains(pid),
    decreases n,
{
    if !first.contains(pid) {
        let parent = record_of(table, pid).parent->0;
        lemma_descends_within(table, first, others, parent, (n - 1) as nat);
    }
}

/// The command itself is in its tree while it is listed and has not been taken out, with the
/// start time that the snapshot gives.
pub proof fn law_the_root_belongs_to_the_tree(
    known: Map<u32, u64>,
    root: u32,
    table: Seq<ProcessRecord>,
)
    requires
        listed(table, root),
    ensures
        family(seeds(known, root, false, table), table).contains_key(root),
        family(seeds(known, root, false, table), table)[root] == record_of(table, root).start_time,
{
    let first = seeds(known, root, false, table);
    assert(descends(table, first.dom(), root, 0));
}

/// A process keeps the start time that it is known with; one that is found anew, or was known
/// without, has the one that the snapshot gives, or none until the next look.
pub proof fn law_start_times(
    known: Map<u32, u64>,
    root: u32,
    retired: bool,
    table: Seq<ProcessRecord>,
    pid: u32,
)
    requires
        family(seeds(known, root, retired, table), table).contains_key(pid),
    ensures
        ({
            let time = family(seeds(known, root, retired, table), table)[pid];
            &&& pid == root && !retired && listed(table, root) ==> time == record_of(
                table,
                pid,
            ).start_time
            &&& pid != root && known.contains_key(pid) && known[pid] != 0 && record_of(
                table,
                pid,
            ).start_time == known[pid] && listed(table, pid) ==> time == known[pid]
            &&& !known.contains_key(pid) ==> time == record_of(table, pid).start_time
        }),
{
}

/// The processes of a tree by number are just those that are listed in it.
pub proof fn law_a_tree_knows_its_processes(ids: Seq<ProcessIdentity>, i: int, pid: u32)
    requires
        distinct_ids(ids),
        0 <= i < ids.len(),
    ensures
        known_map(ids).contains_key(ids[i].pid),
        known_map(ids)[ids[i].pid] == ids[i].start_time,
        known_map(ids).contains_key(pid) ==> exists|k: int|
            0 <= k < ids.len() && (#[trigger] ids[k]).pid == pid,
{
    lemma_known_at(ids, i);
}

/// A look keeps the tree's root, and says whether it saw it.
pub proof fn law_a_look_sees_the_root(
    before: ProcessTree,
    after: ProcessTree,
    table: Seq<ProcessRecord>,
)
    requires
        refreshed(before, after, table),
    ensures
        after.root() == before.root(),
        after.retired() == before.retired(),
        after.observed() <==> !before.retired() && exists|i: int|
            0 <= i < table.len() && (#[trigger] table[i]).pid == before.root(),
{
}

/// A tree whose root was taken out has lost it, for good, and nothing else.
pub proof fn law_only_the_root_is_taken_out(before: ProcessTree, after: ProcessTree, pid: u32)
    requires
        root_retired(before, after),
    ensures
        after.retired(),
        !after.known().contains_key(before.root()),
        pid != before.root() ==> {
            &&& after.known().contains_key(pid) == before.known().contains_key(pid)
            &&& before.known().contains_key(pid) ==> after.known()[pid] == before.known()[pid]
        },
{
}

} // verus!
