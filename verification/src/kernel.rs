//! The kernel's books: which processes run on this node, and the numbers
//! that new processes get.
use vstd::prelude::*;
use vstd::string::*;

use crate::pid::{PidView, ProcessId};

verus! {

/// Errors the kernel answers with.
#[derive(Debug, Clone, Copy, PartialEq, Eq, Structural)]
pub enum KernelError {
    /// No running process has this id.
    UnknownProcess,
}

/// What the kernel reports about a running process.
#[derive(Debug)]
pub struct ProcessState {
    pub pid: ProcessId,
}

/// The view of a list of process ids.
pub open spec fn pids_view(v: Seq<ProcessId>) -> Seq<PidView> {
    v.map_values(|p: ProcessId| p@)
}

pub open spec fn distinct_pids(s: Seq<PidView>) -> bool {
    forall|i: int, j: int| 0 <= i < j < s.len() ==> s[i] != s[j]
}

pub open spec fn other_pid(p: PidView) -> spec_fn(PidView) -> bool {
    |x: PidView| x != p
}

/// The kernel's process table.
pub struct Kernel {
    node_name: String,
    procs: Vec<ProcessId>,
    next_proc_id: usize,
}

pub struct KernelView {
    pub node: Seq<char>,
    pub procs: Seq<PidView>,
    pub next_proc_id: usize,
}

impl View for Kernel {
    type V = KernelView;

    closed spec fn view(&self) -> KernelView {
        KernelView {
            node: self.node_name@,
            procs: pids_view(self.procs@),
            next_proc_id: self.next_proc_id,
        }
    }
}

fn without_pid(v: &Vec<ProcessId>, p: &ProcessId) -> (r: Vec<ProcessId>)
    ensures
        pids_view(r@) == pids_view(v@).filter(other_pid(p@)),
{
    let ghost ov = pids_view(v@);
    let mut r: Vec<ProcessId> = Vec::new();
    let mut i: usize = 0;
    while i < v.len()
        invariant
            ov == pids_view(v@),
            i <= v.len(),
            pids_view(r@) =~= ov.take(i as int).filter(other_pid(p@)),
        decreases v.len() - i,
    {
        proof {
            reveal(Seq::filter);
            assert(ov.take(i + 1).drop_last() =~= ov.take(i as int));
            assert(ov.take(i + 1).last() == v@[i as int]@);
        }
        let ghost before = pids_view(r@);
        if !v[i].same(p) {
            r.push(v[i].duplicate());
            proof {
                assert(pids_view(r@) =~= before.push(v@[i as int]@));
            }
        }
        i = i + 1;
    }
    proof {
        assert(ov.take(v.len() as int) =~= ov);
    }
    r
}

proof fn lemma_filter_distinct_pids(s: Seq<PidView>, p: PidView)
    requires
        distinct_pids(s),
    ensures
        distinct_pids(s.filter(other_pid(p))),
        !s.filter(other_pid(p)).contains(p),
        forall|x: PidView| x != p ==> (s.contains(x) == s.filter(other_pid(p)).contains(x)),
    decreases s.len(),
{
    reveal(Seq::filter);
    if s.len() > 0 {
        let rest = s.drop_last();
        assert(distinct_pids(rest)) by {
            assert forall|i: int, j: int| 0 <= i < j < rest.len() implies rest[i] != rest[j] by {
                assert(rest[i] == s[i] && rest[j] == s[j]);
            }
        }
        lemma_filter_distinct_pids(rest, p);
        let f = rest.filter(other_pid(p));
        assert forall|x: PidView| x != p implies (s.contains(x) == s.filter(other_pid(p)).contains(
            x,
        )) by {
            if s.contains(x) {
                let k = choose|k: int| 0 <= k < s.len() && s[k] == x;
                if k < rest.len() {
                    assert(rest[k] == x);
                    assert(rest.contains(x));
                }
            }
            if rest.contains(x) {
                let k = choose|k: int| 0 <= k < rest.len() && rest[k] == x;
                assert(s[k] == x);
            }
        }
        if other_pid(p)(s.last()) {
            let g = f.push(s.last());
            assert(!rest.contains(s.last())) by {
                if rest.contains(s.last()) {
                    let k = choose|k: int| 0 <= k < rest.len() && rest[k] == s.last();
                    assert(s[k] == rest[k]);
                }
            }
            assert(!f.contains(s.last())) by {
                if f.contains(s.last()) {
                    rest.lemma_filter_contains_rev(other_pid(p), s.last());
                }
            }
            assert forall|i: int, j: int| 0 <= i < j < g.len() implies g[i] != g[j] by {
                if j == g.len() - 1 {
                    assert(g[i] == f[i]);
                    assert(f.contains(f[i]));
                } else {
                    assert(g[i] == f[i] && g[j] == f[j]);
                }
            }
        }
    }
}

impl Kernel {
    /// No process is listed twice.
    pub open spec fn wf(&self) -> bool {
        distinct_pids(self@.procs)
    }

    /// A kernel for node `node_name` with no processes.
    pub fn new(node_name: &str) -> (r: Kernel)
        ensures
            r.wf(),
            r@.node == node_name@,
            r@.procs.len() == 0,
            r@.next_proc_id == 0,
    {
        let r = Kernel { node_name: String::from_str(node_name), procs: Vec::new(), next_proc_id: 0 };
        proof {
            assert(r@.procs =~= Seq::<PidView>::empty());
        }
        r
    }

    /// Whether `pid` runs here.
    pub fn contains(&self, pid: &ProcessId) -> (r: bool)
        ensures
            r == self@.procs.contains(pid@),
    {
        let mut i: usize = 0;
        while i < self.procs.len()
            invariant
                i <= self.procs.len(),
                forall|j: int| 0 <= j < i ==> self@.procs[j] != pid@,
            decreases self.procs.len() - i,
        {
            proof {
                assert(self@.procs[i as int] == self.procs@[i as int]@);
            }
            if self.procs[i].same(pid) {
                return true;
            }
            i = i + 1;
        }
        false
    }

    /// The id for the next process: this node and the next number, which
    /// then advances (wrapping around).
    pub fn next_pid(&mut self) -> (r: ProcessId)
        requires
            old(self).wf(),
        ensures
            final(self).wf(),
            r@ == (PidView { node: old(self)@.node, id: old(self)@.next_proc_id }),
            final(self)@ == (KernelView {
                next_proc_id: (if old(self)@.next_proc_id == usize::MAX {
                    0
                } else {
                    old(self)@.next_proc_id + 1
                }) as usize,
                ..old(self)@
            }),
    {
        let id = ProcessId::new(self.node_name.as_str(), self.next_proc_id);
        self.next_proc_id = self.next_proc_id.wrapping_add(1);
        id
    }

    /// Records a spawned process.
    pub fn spawned(&mut self, pid: ProcessId)
        requires
            old(self).wf(),
        ensures
            final(self).wf(),
            final(self)@ == (KernelView {
                procs: old(self)@.procs.filter(other_pid(pid@)).push(pid@),
                ..old(self)@
            }),
            final(self)@.procs.contains(pid@),
    {
        let mut procs = without_pid(&self.procs, &pid);
        proof {
            lemma_filter_distinct_pids(old(self)@.procs, pid@);
        }
        let ghost base = pids_view(procs@);
        let ghost p = pid@;
        procs.push(pid);
        proof {
            assert(pids_view(procs@) =~= base.push(p));
            let g = pids_view(procs@);
            assert forall|i: int, j: int| 0 <= i < j < g.len() implies g[i] != g[j] by {
                if j == g.len() - 1 {
                    assert(g[i] == base[i]);
                    assert(base.contains(base[i]));
                } else {
                    assert(g[i] == base[i] && g[j] == base[j]);
                }
            }
            assert(g[g.len() - 1] == p);
        }
        self.procs = procs;
    }

    /// Forgets a process that ended. The kernel is told only of processes
    /// it spawned.
    pub fn handle_exit(&mut self, pid: &ProcessId)
        requires
            old(self).wf(),
            old(self)@.procs.contains(pid@),
        ensures
            final(self).wf(),
            final(self)@ == (KernelView {
                procs: old(self)@.procs.filter(other_pid(pid@)),
                ..old(self)@
            }),
            !final(self)@.procs.contains(pid@),
    {
        let procs = without_pid(&self.procs, pid);
        proof {
            lemma_filter_distinct_pids(old(self)@.procs, pid@);
        }
        self.procs = procs;
    }

    /// Whether a kill of `pid` can be delivered.
    pub fn kill_proc(&self, pid: &ProcessId) -> (r: Result<(), KernelError>)
        ensures
            r is Ok == self@.procs.contains(pid@),
            r is Err ==> r == Err::<(), KernelError>(KernelError::UnknownProcess),
    {
        if self.contains(pid) {
            Ok(())
        } else {
            Err(KernelError::UnknownProcess)
        }
    }

    /// Whether a message for `dst` can be delivered.
    pub fn dispatch_msg(&self, dst: &ProcessId) -> (r: Result<(), KernelError>)
        ensures
            r is Ok == self@.procs.contains(dst@),
            r is Err ==> r == Err::<(), KernelError>(KernelError::UnknownProcess),
    {
        self.kill_proc(dst)
    }

    /// The running processes.
    pub fn procs(&self) -> (r: Vec<ProcessId>)
        ensures
            pids_view(r@) == self@.procs,
    {
        let mut r: Vec<ProcessId> = Vec::new();
        let mut i: usize = 0;
        while i < self.procs.len()
            invariant
                i <= self.procs.len(),
                pids_view(r@) =~= self@.procs.take(i as int),
            decreases self.procs.len() - i,
        {
            r.push(self.procs[i].duplicate());
            proof {
                assert(self@.procs.take(i + 1) =~= self@.procs.take(i as int).push(
                    self.procs@[i as int]@,
                ));
            }
            i = i + 1;
        }
        proof {
            assert(self@.procs.take(self.procs.len() as int) =~= self@.procs);
        }
        r
    }

    /// What is known of each running process.
    pub fn list_processes(&self) -> (r: Vec<ProcessState>)
        ensures
            r@.map_values(|s: ProcessState| s.pid@) == self@.procs,
    {
        let ids = self.procs();
        let mut r: Vec<ProcessState> = Vec::new();
        let mut i: usize = 0;
        while i < ids.len()
            invariant
                i <= ids.len(),
                pids_view(ids@) == self@.procs,
                r@.map_values(|s: ProcessState| s.pid@) =~= pids_view(ids@).take(i as int),
            decreases ids.len() - i,
        {
            r.push(ProcessState { pid: ids[i].duplicate() });
            proof {
                assert(pids_view(ids@).take(i + 1) =~= pids_view(ids@).take(i as int).push(
                    ids@[i as int]@,
                ));
            }
            i = i + 1;
        }
        proof {
            assert(pids_view(ids@).take(ids.len() as int) =~= pids_view(ids@));
        }
        r
    }
}

/// How many spawns a run of kernel events holds (`None` is a spawn,
/// `Some(id)` the exit of process `id` of this node).
pub open spec fn spawns(evs: Seq<Option<usize>>) -> nat
    decreases evs.len(),
{
    if evs.len() == 0 {
        0
    } else {
        spawns(evs.drop_last()) + if evs.last() is None {
            1nat
        } else {
            0nat
        }
    }
}

/// The kernel after a run of events, from a new kernel of node `node`: a
/// spawn gives the next id to a process (as [Kernel::next_pid] and
/// [Kernel::spawned] do), an exit forgets the process (as
/// [Kernel::handle_exit] does).
pub open spec fn kernel_run(node: Seq<char>, evs: Seq<Option<usize>>) -> KernelView
    decreases evs.len(),
{
    if evs.len() == 0 {
        KernelView { node, procs: Seq::empty(), next_proc_id: 0 }
    } else {
        let k = kernel_run(node, evs.drop_last());
        match evs.last() {
            None => {
                let p = PidView { node, id: k.next_proc_id };
                KernelView {
                    procs: k.procs.filter(other_pid(p)).push(p),
                    next_proc_id: (if k.next_proc_id == usize::MAX {
                        0
                    } else {
                        k.next_proc_id + 1
                    }) as usize,
                    ..k
                }
            },
            Some(id) => KernelView {
                procs: k.procs.filter(other_pid(PidView { node, id })),
                ..k
            },
        }
    }
}

/// Whether the spawn at event `i` handed out `id` and no later event is
/// that process's exit.
pub open spec fn spawned_and_running(evs: Seq<Option<usize>>, i: int, id: usize) -> bool {
    &&& 0 <= i < evs.len()
    &&& evs[i] is None
    &&& spawns(evs.take(i)) == id
    &&& forall|j: int| i < j < evs.len() ==> evs[j] != Some(id)
}

proof fn lemma_spawns_prefix(evs: Seq<Option<usize>>, i: int)
    requires
        0 <= i <= evs.len(),
    ensures
        spawns(evs.take(i)) <= spawns(evs),
    decreases evs.len() - i,
{
    if i < evs.len() {
        lemma_spawns_prefix(evs, i + 1);
        assert(evs.take(i + 1).drop_last() =~= evs.take(i));
    } else {
        assert(evs.take(i) =~= evs);
    }
}

/// Law: the process table is exactly the processes spawned and not yet
/// exited. Until the counter wraps, every spawn hands out a new id (the
/// number of spawns before it), so no id is handed out twice; the table
/// holds no process twice, and a process is in it exactly when some spawn
/// handed out its id and no later event was its exit.
pub proof fn law_process_table(node: Seq<char>, evs: Seq<Option<usize>>)
    requires
        evs.len() < usize::MAX,
    ensures
        kernel_run(node, evs).next_proc_id == spawns(evs),
        distinct_pids(kernel_run(node, evs).procs),
        forall|p: PidView|
            #![trigger kernel_run(node, evs).procs.contains(p)]
            kernel_run(node, evs).procs.contains(p) <==> (p.node == node && exists|i: int|
                #[trigger] spawned_and_running(evs, i, p.id)),
    decreases evs.len(),
{
    let k = kernel_run(node, evs);
    if evs.len() == 0 {
        assert forall|p: PidView, i: int| !#[trigger] spawned_and_running(evs, i, p.id) by {}
    } else {
        let front = evs.drop_last();
        let last = evs.len() - 1;
        law_process_table(node, front);
        let k0 = kernel_run(node, front);
        assert(evs.last() == evs[last]);
        assert(front.take(last) =~= front);
        assert(evs.take(last) =~= front);
        lemma_spawns_prefix(front, 0);
        assert(spawns(front) <= front.len()) by {
            lemma_spawns_len(front);
        }
        // the ids in the table are below the counter
        assert forall|q: PidView| k0.procs.contains(q) implies q.id < k0.next_proc_id by {
            let i = choose|i: int| #[trigger] spawned_and_running(front, i, q.id);
            lemma_spawns_prefix(front, i + 1);
            assert(front.take(i + 1).drop_last() =~= front.take(i));
        }
        match evs.last() {
            None => {
                let p = PidView { node, id: k0.next_proc_id };
                lemma_filter_distinct_pids(k0.procs, p);
                let f = k0.procs.filter(other_pid(p));
                assert(k.procs == f.push(p));
                assert(distinct_pids(k.procs)) by {
                    assert forall|i: int, j: int| 0 <= i < j < k.procs.len() implies k.procs[i] != k.procs[j] by {
                        if j == k.procs.len() - 1 {
                            assert(k.procs[i] == f[i]);
                            assert(f.contains(f[i]));
                        } else {
                            assert(k.procs[i] == f[i] && k.procs[j] == f[j]);
                        }
                    }
                }
                assert forall|q: PidView| #![trigger k.procs.contains(q)]
                    k.procs.contains(q) <==> (q.node == node && exists|i: int|
                        #[trigger] spawned_and_running(evs, i, q.id)) by {
                    assert(k.procs.contains(q) <==> (f.contains(q) || q == p)) by {
                        if k.procs.contains(q) {
                            let i = choose|i: int| 0 <= i < k.procs.len() && k.procs[i] == q;
                            if i < f.len() {
                                assert(k.procs[i] == f[i]);
                            }
                        }
                        if f.contains(q) {
                            let i = choose|i: int| 0 <= i < f.len() && f[i] == q;
                            assert(k.procs[i] == f[i]);
                        }
                        assert(k.procs[f.len() as int] == p);
                    }
                    if q == p {
                        assert(spawned_and_running(evs, last, q.id));
                    } else {
                        assert(f.contains(q) == k0.procs.contains(q));
                        if k0.procs.contains(q) {
                            let i = choose|i: int| #[trigger] spawned_and_running(front, i, q.id);
                            assert(evs.take(i) =~= front.take(i));
                            assert(evs[i] == front[i]);
                            assert forall|j: int| i < j < evs.len() implies evs[j] != Some(q.id) by {
                                if j < last {
                                    assert(evs[j] == front[j]);
                                }
                            }
                            assert(spawned_and_running(evs, i, q.id));
                        }
                        if q.node == node && exists|i: int| #[trigger] spawned_and_running(evs, i, q.id) {
                            let i = choose|i: int| #[trigger] spawned_and_running(evs, i, q.id);
                            if i == last {
                                assert(q.id == spawns(front));
                            } else {
                                assert(evs.take(i) =~= front.take(i));
                                assert(spawned_and_running(front, i, q.id));
                            }
                        }
                    }
                }
            },
            Some(id) => {
                let x = PidView { node, id };
                lemma_filter_distinct_pids(k0.procs, x);
                assert forall|q: PidView| #![trigger k.procs.contains(q)]
                    k.procs.contains(q) <==> (q.node == node && exists|i: int|
                        #[trigger] spawned_and_running(evs, i, q.id)) by {
                    if k0.procs.contains(q) && q != x {
                        let i = choose|i: int| #[trigger] spawned_and_running(front, i, q.id);
                        assert(evs.take(i) =~= front.take(i));
                        assert(evs[i] == front[i]);
                        assert(q.node == node);
                        assert forall|j: int| i < j < evs.len() implies evs[j] != Some(q.id) by {
                            if j < last {
                                assert(evs[j] == front[j]);
                            }
                        }
                        assert(spawned_and_running(evs, i, q.id));
                    }
                    if q.node == node && exists|i: int| #[trigger] spawned_and_running(evs, i, q.id) {
                        let i = choose|i: int| #[trigger] spawned_and_running(evs, i, q.id);
                        assert(i < last);
                        assert(evs.take(i) =~= front.take(i));
                        assert(spawned_and_running(front, i, q.id));
                        assert(evs[last] != Some(q.id));
                    }
                }
            },
        }
    }
}

proof fn lemma_spawns_len(evs: Seq<Option<usize>>)
    ensures
        spawns(evs) <= evs.len(),
    decreases evs.len(),
{
    if evs.len() > 0 {
        lemma_spawns_len(evs.drop_last());
    }
}

} // verus!
