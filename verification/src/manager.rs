//! The decisions of the thread that manages a search: which task each
//! worker gets, which workers run, and what the user interface is told.
//!
//! The manager itself only decides. Whoever drives it hands it the events
//! (a worker's report, the user's request) and performs the actions it
//! returns (start a worker, pause one, let one go on).
use vstd::prelude::*;

use crate::ui::{Thread, ThreadStatus, UISignal};
use crate::writers::WriterType;

verus! {

broadcast use vstd::seq_lib::seq_to_set_is_finite;

/// The number of expression lengths a search keeps counts for.
pub const LENGTH_SLOTS: usize = 99;

/// The number of tasks of each length: one per writer type.
pub const TYPES_PER_LENGTH: usize = 8;

/// The writer type of the task at place `k` of a length (atoms first).
pub open spec fn writer_type_at(k: int) -> WriterType {
    if k == 0 {
        WriterType::ConstVar
    } else if k == 1 {
        WriterType::Neg
    } else if k == 2 {
        WriterType::Mul
    } else if k == 3 {
        WriterType::Add
    } else if k == 4 {
        WriterType::Shift
    } else if k == 5 {
        WriterType::And
    } else if k == 6 {
        WriterType::Xor
    } else {
        WriterType::Or
    }
}

/// Each of the eight slots of a length holds a different writer type, and
/// every writer type has a slot: the slots are the eight writer types, once
/// each.
pub proof fn lemma_writer_types_once(wt: WriterType)
    ensures
        exists|k: int| 0 <= k < 8 && #[trigger] writer_type_at(k) == wt,
        forall|i: int, j: int|
            0 <= i < 8 && 0 <= j < 8 && i != j ==> #[trigger] writer_type_at(i)
                != #[trigger] writer_type_at(j),
{
    let k: int = match wt {
        WriterType::ConstVar => 0,
        WriterType::Neg => 1,
        WriterType::Mul => 2,
        WriterType::Add => 3,
        WriterType::Shift => 4,
        WriterType::And => 5,
        WriterType::Xor => 6,
        WriterType::Or => 7,
    };
    assert(writer_type_at(k) == wt);
}

/// The tasks of a search from `min_length` on are the pairs of a length
/// (from `min_length` on) and a writer type, each pair once: the `h`-th task
/// is the only one with its length and type.
pub proof fn lemma_tasks_once(min_length: usize, length: int, wt: WriterType)
    requires
        min_length <= length,
    ensures
        exists|h: int| 0 <= h && #[trigger] task_at(min_length, h) == (length, wt),
        forall|h1: int, h2: int|
            0 <= h1 && 0 <= h2 && #[trigger] task_at(min_length, h1) == #[trigger] task_at(
                min_length,
                h2,
            ) ==> h1 == h2,
{
    lemma_writer_types_once(wt);
    let k = choose|k: int| 0 <= k < 8 && #[trigger] writer_type_at(k) == wt;
    let h = (length - min_length) * 8 + k;
    assert(h / 8 == length - min_length && h % 8 == k);
    assert(task_at(min_length, h) == (length, wt));
    assert forall|h1: int, h2: int|
        0 <= h1 && 0 <= h2 && #[trigger] task_at(min_length, h1) == #[trigger] task_at(
            min_length,
            h2,
        ) implies h1 == h2 by {
        if h1 % 8 != h2 % 8 {
            assert(writer_type_at(h1 % 8) != writer_type_at(h2 % 8));
        }
    }
}

/// What the driver of a search must do for the manager.
#[derive(Debug, PartialEq, Eq, Structural)]
pub enum Action {
    /// Let the paused worker at this place of the worker list go on.
    Unpause(usize),
    /// Start a worker with this id on the expressions of this length whose
    /// top-level operator is of this type.
    Spawn { id: usize, length: usize, writer_type: WriterType },
    /// Pause the worker at this place of the worker list.
    Pause(usize),
}

/// The state of the manager of a search.
pub struct Manager {
    total_count: u128,
    target_thread_count: usize,
    paused: bool,
    threads: Vec<Thread>,
    counts: Vec<(u128, usize)>,
    min_length: usize,
    max_length: usize,
    next_length: usize,
    next_type: usize,
    tasks_left: bool,
}

/// The number of running workers at the front of `threads`.
pub open spec fn running_count(threads: Seq<Thread>) -> int
    decreases threads.len(),
{
    if threads.len() == 0 {
        0
    } else if threads.last().should_be_running {
        running_count(threads.drop_last()) + 1
    } else {
        running_count(threads.drop_last())
    }
}

/// The ids of the workers.
pub open spec fn ids(threads: Seq<Thread>) -> Seq<int> {
    Seq::new(threads.len(), |i: int| threads[i].id as int)
}

/// The smallest id that no worker has.
pub open spec fn is_free_id(threads: Seq<Thread>, x: int) -> bool {
    0 <= x && !ids(threads).contains(x) && forall|y: int| 0 <= y < x ==> ids(threads).contains(y)
}

impl Manager {
    /// The number of expressions tried so far.
    pub closed spec fn total(&self) -> u128 {
        self.total_count
    }

    /// The number of workers the user wants running.
    pub closed spec fn target(&self) -> usize {
        self.target_thread_count
    }

    /// Whether the user paused the search.
    pub closed spec fn is_paused(&self) -> bool {
        self.paused
    }

    /// The workers, in the order in which they were started.
    pub closed spec fn threads_spec(&self) -> Seq<Thread> {
        self.threads@
    }

    /// For each length below `LENGTH_SLOTS`: the number of expressions tried
    /// and the number of tasks finished.
    pub closed spec fn counts_spec(&self) -> Seq<(u128, usize)> {
        self.counts@
    }

    /// Whether there are tasks left to hand out.
    pub closed spec fn has_tasks(&self) -> bool {
        self.tasks_left
    }

    /// The next task to hand out: its length and writer type.
    pub closed spec fn next_task(&self) -> (usize, WriterType) {
        (self.next_length, writer_type_at(self.next_type as int))
    }

    /// The length range of the search.
    pub closed spec fn lengths(&self) -> (usize, usize) {
        (self.min_length, self.max_length)
    }

    /// The number of tasks handed out so far.
    pub closed spec fn handed_out(&self) -> int {
        if self.tasks_left {
            (self.next_length - self.min_length) * 8 + self.next_type
        } else {
            (self.max_length - self.min_length + 1) * 8
        }
    }

    /// The manager's invariant: the running workers come first, no two
    /// workers share an id, and the next task lies in the length range.
    pub closed spec fn wf(&self) -> bool {
        &&& self.counts@.len() == LENGTH_SLOTS
        &&& forall|i: int, j: int|
            0 <= i < j < self.threads@.len() ==> self.threads@[i].id != self.threads@[j].id
        &&& forall|i: int, j: int|
            0 <= i < j < self.threads@.len() && (#[trigger] self.threads@[j]).should_be_running
                ==> (#[trigger] self.threads@[i]).should_be_running
        &&& self.next_type < 8
        &&& self.tasks_left ==> self.min_length <= self.next_length <= self.max_length
        &&& !self.tasks_left ==> self.next_type == 0
    }

    /// The index of the worker with the given id.
    pub open spec fn index_of(&self, id: usize) -> int {
        choose|i: int| 0 <= i < self.threads_spec().len() && self.threads_spec()[i].id == id
    }

    /// Some worker has the given id.
    pub open spec fn has_thread(&self, id: usize) -> bool {
        exists|i: int| 0 <= i < self.threads_spec().len() && self.threads_spec()[i].id == id
    }

    /// A manager for a search over the lengths `min_length..=max_length`
    /// that wants `threads` workers.
    pub fn new(threads: usize, min_length: usize, max_length: usize) -> (r: Self)
        ensures
            r.wf(),
            r.total() == 0,
            r.target() == threads,
            !r.is_paused(),
            r.threads_spec().len() == 0,
            r.counts_spec() == Seq::new(LENGTH_SLOTS as nat, |i: int| (0u128, 0usize)),
            r.lengths() == (min_length, max_length),
            r.has_tasks() == (min_length <= max_length),
            r.has_tasks() ==> r.next_task() == (min_length, WriterType::ConstVar),
            r.handed_out() == 0 || !r.has_tasks(),
    {
        let mut counts: Vec<(u128, usize)> = Vec::new();
        let mut i: usize = 0;
        while i < LENGTH_SLOTS
            invariant
                i <= LENGTH_SLOTS,
                counts@ == Seq::new(i as nat, |k: int| (0u128, 0usize)),
            decreases LENGTH_SLOTS - i,
        {
            counts.push((0, 0));
            proof {
                assert(counts@ =~= Seq::new((i + 1) as nat, |k: int| (0u128, 0usize)));
            }
            i = i + 1;
        }
        Manager {
            total_count: 0,
            target_thread_count: threads,
            paused: false,
            threads: Vec::new(),
            counts,
            min_length,
            max_length,
            next_length: min_length,
            next_type: 0,
            tasks_left: min_length <= max_length,
        }
    }

    /// The number of expressions tried so far.
    pub fn total_count(&self) -> (r: u128)
        ensures
            r == self.total(),
    {
        self.total_count
    }

    /// The number of workers the user wants running.
    pub fn target_thread_count(&self) -> (r: usize)
        ensures
            r == self.target(),
    {
        self.target_thread_count
    }

    /// The workers, in the order in which they were started.
    pub fn threads(&self) -> (r: &Vec<Thread>)
        ensures
            r@ == self.threads_spec(),
    {
        &self.threads
    }

    /// The number of expressions tried and of tasks finished, for a length
    /// below `LENGTH_SLOTS`.
    pub fn counts_at(&self, length: usize) -> (r: (u128, usize))
        requires
            self.wf(),
            length < LENGTH_SLOTS,
        ensures
            r == self.counts_spec()[length as int],
    {
        self.counts[length]
    }

    /// The place of the worker with the given id, if there is one.
    pub fn position_of(&self, id: usize) -> (r: Option<usize>)
        requires
            self.wf(),
        ensures
            r is Some == self.has_thread(id),
            r matches Some(i) ==> i == self.index_of(id),
    {
        let mut i: usize = 0;
        while i < self.threads.len()
            invariant
                self.wf(),
                i <= self.threads@.len(),
                forall|k: int| 0 <= k < i ==> self.threads@[k].id != id,
            decreases self.threads.len() - i,
        {
            if self.threads[i].id == id {
                assert(self.threads_spec()[i as int].id == id);
                let j = self.find(id);
                return Some(j);
            }
            i = i + 1;
        }
        None
    }

    /// The place of the worker with the given id.
    fn find(&self, id: usize) -> (r: usize)
        requires
            self.wf(),
            self.has_thread(id),
        ensures
            r < self.threads_spec().len(),
            self.threads_spec()[r as int].id == id,
            r == self.index_of(id),
    {
        let mut i: usize = 0;
        while i < self.threads.len()
            invariant
                i <= self.threads@.len(),
                forall|k: int| 0 <= k < i ==> self.threads@[k].id != id,
                self.has_thread(id),
                self.wf(),
            decreases self.threads.len() - i,
        {
            if self.threads[i].id == id {
                proof {
                    let j = self.index_of(id);
                    assert(0 <= j < self.threads@.len() && self.threads@[j].id == id);
                    if j < i {
                        assert(self.threads@[j].id != self.threads@[i as int].id);
                    } else if j > i {
                        assert(self.threads@[i as int].id != self.threads@[j].id);
                    }
                }
                return i;
            }
            i = i + 1;
        }
        proof {
            let j = self.index_of(id);
            assert(self.threads@[j].id == id);
        }
        0
    }

    /// A worker reports that it tried `count` more expressions.
    pub fn on_tried(&mut self, thread_id: usize, count: u128)
        requires
            old(self).wf(),
            old(self).has_thread(thread_id),
            old(self).threads_spec()[old(self).index_of(thread_id)].length < LENGTH_SLOTS,
            old(self).total() + count <= u128::MAX,
            old(self).counts_spec()[old(self).threads_spec()[old(self).index_of(
                thread_id,
            )].length as int].0 + count <= u128::MAX,
        ensures
            final(self).wf(),
            final(self).total() == old(self).total() + count,
            final(self).threads_spec() == old(self).threads_spec(),
            final(self).counts_spec() == old(self).counts_spec().update(
                old(self).threads_spec()[old(self).index_of(thread_id)].length as int,
                (
                    (old(self).counts_spec()[old(self).threads_spec()[old(self).index_of(
                        thread_id,
                    )].length as int].0 + count) as u128,
                    old(self).counts_spec()[old(self).threads_spec()[old(self).index_of(
                        thread_id,
                    )].length as int].1,
                ),
            ),
            final(self).target() == old(self).target(),
            final(self).is_paused() == old(self).is_paused(),
            final(self).has_tasks() == old(self).has_tasks(),
            final(self).next_task() == old(self).next_task(),
            final(self).handed_out() == old(self).handed_out(),
    {
        let i = self.find(thread_id);
        let length = self.threads[i].length;
        let (c, d) = self.counts[length];
        self.counts.set(length, (c + count, d));
        self.total_count = self.total_count + count;
    }

    /// A worker reports what it is doing.
    pub fn on_status(&mut self, thread_id: usize, status: ThreadStatus)
        requires
            old(self).wf(),
            old(self).has_thread(thread_id),
        ensures
            final(self).wf(),
            final(self).threads_spec().len() == old(self).threads_spec().len(),
            forall|k: int|
                0 <= k < old(self).threads_spec().len() ==> {
                    let t = #[trigger] final(self).threads_spec()[k];
                    let u = old(self).threads_spec()[k];
                    &&& t.id == u.id
                    &&& t.length == u.length
                    &&& t.should_be_running == u.should_be_running
                    &&& t.reported_status == if k == old(self).index_of(thread_id) {
                        Some(status)
                    } else {
                        u.reported_status
                    }
                },
            final(self).counts_spec() == old(self).counts_spec(),
            final(self).total() == old(self).total(),
            final(self).target() == old(self).target(),
            final(self).is_paused() == old(self).is_paused(),
            final(self).has_tasks() == old(self).has_tasks(),
            final(self).next_task() == old(self).next_task(),
            final(self).handed_out() == old(self).handed_out(),
    {
        let i = self.find(thread_id);
        let old_thread = self.threads.remove(i);
        let t = Thread {
            id: old_thread.id,
            length: old_thread.length,
            reported_status: Some(status),
            should_be_running: old_thread.should_be_running,
        };
        self.threads.insert(i, t);
        proof {
            assert forall|a: int, b: int|
                0 <= a < b < self.threads@.len() && (#[trigger] self.threads@[b]).should_be_running
                    implies (#[trigger] self.threads@[a]).should_be_running by {
                assert(old(self).threads@[b].should_be_running);
            }
            assert forall|a: int, b: int| 0 <= a < b < self.threads@.len() implies self.threads@[a].id
                != self.threads@[b].id by {
                assert(old(self).threads@[a].id == self.threads@[a].id);
                assert(old(self).threads@[b].id == self.threads@[b].id);
            }
        }
    }

    /// A worker reports that it finished its task. When that was the last
    /// task of its length, the result is that length and the number of
    /// expressions of it that were tried.
    pub fn on_done(&mut self, thread_id: usize) -> (r: Option<(usize, u128)>)
        requires
            old(self).wf(),
            old(self).has_thread(thread_id),
            old(self).threads_spec()[old(self).index_of(thread_id)].length < LENGTH_SLOTS,
            old(self).counts_spec()[old(self).threads_spec()[old(self).index_of(
                thread_id,
            )].length as int].1 < usize::MAX,
        ensures
            final(self).wf(),
            final(self).threads_spec() == old(self).threads_spec().remove(
                old(self).index_of(thread_id),
            ),
            ({
                let len = old(self).threads_spec()[old(self).index_of(thread_id)].length as int;
                let (c, d) = old(self).counts_spec()[len];
                &&& final(self).counts_spec() == old(self).counts_spec().update(
                    len,
                    (c, (d + 1) as usize),
                )
                &&& r == if d + 1 == TYPES_PER_LENGTH {
                    Some((len as usize, c))
                } else {
                    None
                }
            }),
            final(self).total() == old(self).total(),
            final(self).target() == old(self).target(),
            final(self).is_paused() == old(self).is_paused(),
            final(self).has_tasks() == old(self).has_tasks(),
            final(self).next_task() == old(self).next_task(),
            final(self).handed_out() == old(self).handed_out(),
    {
        let i = self.find(thread_id);
        let length = self.threads[i].length;
        let (c, d) = self.counts[length];
        self.counts.set(length, (c, d + 1));
        self.threads.remove(i);
        proof {
            let o = old(self).threads@;
            let n = self.threads@;
            assert forall|a: int, b: int|
                0 <= a < b < n.len() && (#[trigger] n[b]).should_be_running implies (
                #[trigger] n[a]).should_be_running by {
                let a0 = if a < i { a } else { a + 1 };
                let b0 = if b < i { b } else { b + 1 };
                assert(n[a] == o[a0]);
                assert(n[b] == o[b0]);
                assert(o[b0].should_be_running);
            }
            assert forall|a: int, b: int| 0 <= a < b < n.len() implies n[a].id != n[b].id by {
                let a0 = if a < i { a } else { a + 1 };
                let b0 = if b < i { b } else { b + 1 };
                assert(n[a] == o[a0]);
                assert(n[b] == o[b0]);
            }
        }
        if d + 1 == TYPES_PER_LENGTH {
            Some((length, c))
        } else {
            None
        }
    }

    /// A request of the user. The result is whether the search should end.
    pub fn on_signal(&mut self, signal: UISignal) -> (quit: bool)
        requires
            old(self).wf(),
        ensures
            final(self).wf(),
            quit == (signal == UISignal::Quit),
            final(self).target() == match signal {
                UISignal::IncreaseThreadCount => if old(self).target() < usize::MAX {
                    (old(self).target() + 1) as usize
                } else {
                    old(self).target()
                },
                UISignal::DecreaseThreadCount => if old(self).target() > 0 {
                    (old(self).target() - 1) as usize
                } else {
                    0
                },
                _ => old(self).target(),
            },
            final(self).is_paused() == if signal == UISignal::PauseUnpause {
                !old(self).is_paused()
            } else {
                old(self).is_paused()
            },
            final(self).threads_spec() == old(self).threads_spec(),
            final(self).counts_spec() == old(self).counts_spec(),
            final(self).total() == old(self).total(),
            final(self).has_tasks() == old(self).has_tasks(),
            final(self).next_task() == old(self).next_task(),
            final(self).handed_out() == old(self).handed_out(),
    {
        match signal {
            UISignal::Quit => true,
            UISignal::IncreaseThreadCount => {
                if self.target_thread_count < usize::MAX {
                    self.target_thread_count = self.target_thread_count + 1;
                }
                false
            },
            UISignal::DecreaseThreadCount => {
                if self.target_thread_count > 0 {
                    self.target_thread_count = self.target_thread_count - 1;
                }
                false
            },
            UISignal::PauseUnpause => {
                self.paused = !self.paused;
                false
            },
        }
    }

    /// Whether the search is over: no worker is left, no task is left, and
    /// the interface does not wait for the user to quit.
    pub fn finished(&self, require_manual_exit: bool) -> (r: bool)
        ensures
            r == (self.threads_spec().len() == 0 && !self.has_tasks() && !require_manual_exit),
    {
        self.threads.len() == 0 && !self.tasks_left && !require_manual_exit
    }

    /// What each worker last reported, in the order of the worker list.
    pub fn statuses(&self) -> (r: Vec<Option<ThreadStatus>>)
        ensures
            r@.len() == self.threads_spec().len(),
            forall|k: int| 0 <= k < r@.len() ==> #[trigger] r@[k] == self.threads_spec()[k].reported_status,
    {
        let mut r: Vec<Option<ThreadStatus>> = Vec::new();
        let mut i: usize = 0;
        while i < self.threads.len()
            invariant
                i <= self.threads@.len(),
                r@.len() == i,
                forall|k: int| 0 <= k < i ==> #[trigger] r@[k] == self.threads@[k].reported_status,
            decreases self.threads.len() - i,
        {
            let s = match &self.threads[i].reported_status {
                Some(ThreadStatus::Searching(t)) => Some(ThreadStatus::Searching(t.clone())),
                Some(ThreadStatus::Paused(t)) => Some(ThreadStatus::Paused(t.clone())),
                None => None,
            };
            proof {
                match self.threads@[i as int].reported_status {
                    Some(ThreadStatus::Searching(t)) => {
                        assert(s == Some(ThreadStatus::Searching(t)));
                    },
                    Some(ThreadStatus::Paused(t)) => {
                        assert(s == Some(ThreadStatus::Paused(t)));
                    },
                    None => {},
                }
            }
            r.push(s);
            i = i + 1;
        }
        r
    }
}

/// The task handed out as the `h`-th of a search from `min_length` on: its
/// length and writer type.
pub open spec fn task_at(min_length: usize, h: int) -> (int, WriterType) {
    (min_length + h / 8, writer_type_at(h % 8))
}

/// The workers that run come first: each runs exactly when it is before
/// `running_count`.
proof fn lemma_running_prefix(threads: Seq<Thread>)
    requires
        forall|i: int, j: int|
            0 <= i < j < threads.len() && (#[trigger] threads[j]).should_be_running
                ==> (#[trigger] threads[i]).should_be_running,
    ensures
        0 <= running_count(threads) <= threads.len(),
        forall|i: int|
            0 <= i < threads.len() ==> (#[trigger] threads[i]).should_be_running == (i
                < running_count(threads)),
    decreases threads.len(),
{
    if threads.len() > 0 {
        let d = threads.drop_last();
        assert forall|i: int, j: int|
            0 <= i < j < d.len() && (#[trigger] d[j]).should_be_running implies (
            #[trigger] d[i]).should_be_running by {
            assert(d[j] == threads[j] && d[i] == threads[i]);
        }
        lemma_running_prefix(d);
        assert forall|i: int| 0 <= i < threads.len() implies (
        #[trigger] threads[i]).should_be_running == (i < running_count(threads)) by {
            if i < d.len() {
                assert(d[i] == threads[i]);
                if threads.last().should_be_running {
                    assert(threads[i].should_be_running);
                }
            }
        }
    }
}

/// The writer type at a place of a length.
fn writer_type_of(k: usize) -> (r: WriterType)
    ensures
        r == writer_type_at(k as int),
{
    if k == 0 {
        WriterType::ConstVar
    } else if k == 1 {
        WriterType::Neg
    } else if k == 2 {
        WriterType::Mul
    } else if k == 3 {
        WriterType::Add
    } else if k == 4 {
        WriterType::Shift
    } else if k == 5 {
        WriterType::And
    } else if k == 6 {
        WriterType::Xor
    } else {
        WriterType::Or
    }
}

impl Manager {
    /// Hand out the next task, if any is left.
    fn take_task(&mut self) -> (r: Option<(usize, WriterType)>)
        requires
            old(self).wf(),
        ensures
            final(self).wf(),
            final(self).threads_spec() == old(self).threads_spec(),
            final(self).counts_spec() == old(self).counts_spec(),
            final(self).total() == old(self).total(),
            final(self).target() == old(self).target(),
            final(self).is_paused() == old(self).is_paused(),
            final(self).lengths() == old(self).lengths(),
            old(self).has_tasks() ==> r == Some(old(self).next_task()) && final(self).handed_out()
                == old(self).handed_out() + 1,
            old(self).has_tasks() ==> old(self).next_task().0 == task_at(
                old(self).lengths().0,
                old(self).handed_out(),
            ).0 && old(self).next_task().1 == task_at(
                old(self).lengths().0,
                old(self).handed_out(),
            ).1,
            !old(self).has_tasks() ==> r is None && !final(self).has_tasks()
                && final(self).handed_out() == old(self).handed_out(),
    {
        if !self.tasks_left {
            return None;
        }
        let t = (self.next_length, writer_type_of(self.next_type));
        proof {
            let h = (self.next_length - self.min_length) * 8 + self.next_type;
            assert(h / 8 == self.next_length - self.min_length) by (nonlinear_arith)
                requires
                    h == (self.next_length - self.min_length) * 8 + self.next_type,
                    0 <= self.next_type < 8,
                    self.next_length >= self.min_length,
            ;
            assert(h % 8 == self.next_type) by (nonlinear_arith)
                requires
                    h == (self.next_length - self.min_length) * 8 + self.next_type,
                    0 <= self.next_type < 8,
                    self.next_length >= self.min_length,
            ;
        }
        if self.next_type + 1 < TYPES_PER_LENGTH {
            self.next_type = self.next_type + 1;
        } else {
            self.next_type = 0;
            if self.next_length < self.max_length {
                self.next_length = self.next_length + 1;
            } else {
                self.tasks_left = false;
            }
        }
        Some(t)
    }

    /// The smallest id that no worker has.
    fn free_id(&self) -> (r: usize)
        requires
            self.wf(),
        ensures
            is_free_id(self.threads_spec(), r as int),
    {
        let n = self.threads.len();
        let mut x: usize = 0;
        loop
            invariant
                self.wf(),
                n == self.threads@.len(),
                x <= n,
                forall|y: int| 0 <= y < x ==> ids(self.threads@).contains(y),
            decreases n - x,
        {
            let mut used = false;
            let mut i: usize = 0;
            while i < n
                invariant
                    n == self.threads@.len(),
                    i <= n,
                    used == exists|k: int| 0 <= k < i && self.threads@[k].id == x,
                decreases n - i,
            {
                if self.threads[i].id == x {
                    used = true;
                }
                i = i + 1;
            }
            if !used {
                proof {
                    if ids(self.threads@).contains(x as int) {
                        let k = choose|k: int|
                            0 <= k < ids(self.threads@).len() && ids(self.threads@)[k] == x;
                        assert(self.threads@[k].id == x);
                    }
                }
                return x;
            }
            proof {
                let k = choose|k: int| 0 <= k < i && self.threads@[k].id == x;
                assert(ids(self.threads@)[k] == x);
                if x == n {
                    let ids_set = ids(self.threads@).to_set();
                    let range = vstd::set_lib::set_int_range(0, n + 1);
                    assert forall|y: int| range.contains(y) implies ids_set.contains(y) by {
                        if y < x {
                            assert(ids(self.threads@).contains(y));
                        } else {
                            assert(ids(self.threads@)[k] == y);
                        }
                    }
                    vstd::set_lib::lemma_int_range(0, n + 1);
                    ids(self.threads@).lemma_cardinality_of_set();
                    vstd::set_lib::lemma_len_subset(range, ids_set);
                    assert(false);
                }
            }
            x = x + 1;
        }
    }

    /// Bring the number of running workers to the number the user wants
    /// (none while paused): let paused workers go on, then start new ones on
    /// the next tasks while there are any, or pause the last running ones.
    /// The result lists what the driver must do, in order.
    #[verifier::rlimit(60)]
    pub fn plan(&mut self) -> (actions: Vec<Action>)
        requires
            old(self).wf(),
        ensures
            final(self).wf(),
            final(self).counts_spec() == old(self).counts_spec(),
            final(self).total() == old(self).total(),
            final(self).target() == old(self).target(),
            final(self).is_paused() == old(self).is_paused(),
            final(self).lengths() == old(self).lengths(),
            ({
                let o = old(self).threads_spec();
                let t = final(self).threads_spec();
                let want = if old(self).is_paused() {
                    0
                } else {
                    old(self).target() as int
                };
                let was = running_count(o);
                let spawned = t.len() - o.len();
                &&& 0 <= spawned
                &&& final(self).handed_out() == old(self).handed_out() + spawned
                &&& forall|k: int|
                    0 <= k < o.len() ==> (#[trigger] t[k]).id == o[k].id && t[k].length
                        == o[k].length && t[k].reported_status == o[k].reported_status
                &&& forall|k: int|
                    o.len() <= k < t.len() ==> {
                        &&& (#[trigger] t[k]).reported_status is None
                        &&& t[k].length == task_at(
                            old(self).lengths().0,
                            old(self).handed_out() + k - o.len(),
                        ).0
                        &&& is_free_id(t.take(k), t[k].id as int)
                    }
                &&& was >= want ==> {
                    &&& spawned == 0
                    &&& running_count(t) == want
                    &&& actions@ == Seq::new(
                        (was - want) as nat,
                        |k: int| Action::Pause((was - 1 - k) as usize),
                    )
                }
                &&& was < want ==> {
                    &&& running_count(t) <= want
                    &&& running_count(t) == want || (!final(self).has_tasks() && running_count(t)
                        == t.len())
                    &&& actions@.len() == running_count(t) - was
                    &&& forall|k: int|
                        0 <= k < actions@.len() ==> #[trigger] actions@[k] == if was + k
                            < o.len() {
                            Action::Unpause((was + k) as usize)
                        } else {
                            Action::Spawn {
                                id: t[was + k].id,
                                length: t[was + k].length,
                                writer_type: task_at(
                                    old(self).lengths().0,
                                    old(self).handed_out() + was + k - o.len(),
                                ).1,
                            }
                        }
                }
            }),
    {
        let ghost o = self.threads@;
        let ghost h0 = self.handed_out();
        let ghost min_len = self.min_length;
        let want: usize = if self.paused {
            0
        } else {
            self.target_thread_count
        };
        let mut active: usize = 0;
        let mut i: usize = 0;
        proof {
            assert(o.take(0) =~= Seq::<Thread>::empty());
        }
        while i < self.threads.len()
            invariant
                self.threads@ == o,
                i <= o.len(),
                active == running_count(o.take(i as int)),
                active <= i,
            decreases self.threads.len() - i,
        {
            proof {
                assert(o.take(i + 1).drop_last() =~= o.take(i as int));
            }
            if self.threads[i].should_be_running {
                active = active + 1;
            }
            i = i + 1;
        }
        proof {
            assert(o.take(i as int) =~= o);
            lemma_running_prefix(o);
        }
        let ghost was = active as int;
        let mut actions: Vec<Action> = Vec::new();
        while active < want
            invariant
                self.wf(),
                self.counts@ == old(self).counts@,
                self.total_count == old(self).total_count,
                self.target_thread_count == old(self).target_thread_count,
                self.paused == old(self).paused,
                self.min_length == min_len,
                self.max_length == old(self).max_length,
                want == if old(self).paused {
                    0
                } else {
                    old(self).target_thread_count
                },
                was == running_count(o),
                was <= active,
                was < want ==> active <= want,
                was < want || active == was,
                active <= self.threads@.len(),
                self.threads@.len() >= o.len(),
                self.handed_out() == h0 + self.threads@.len() - o.len(),
                self.threads@.len() > o.len() ==> active == self.threads@.len(),
                forall|k: int|
                    0 <= k < self.threads@.len() ==> (#[trigger] self.threads@[k]).should_be_running
                        == (k < active),
                forall|k: int|
                    0 <= k < o.len() ==> (#[trigger] self.threads@[k]).id == o[k].id
                        && self.threads@[k].length == o[k].length
                        && self.threads@[k].reported_status == o[k].reported_status,
                forall|k: int|
                    o.len() <= k < self.threads@.len() ==> {
                        &&& (#[trigger] self.threads@[k]).reported_status is None
                        &&& self.threads@[k].length == task_at(min_len, h0 + k - o.len()).0
                        &&& is_free_id(self.threads@.take(k), self.threads@[k].id as int)
                    },
                actions@.len() == active - was,
                forall|k: int|
                    0 <= k < actions@.len() ==> #[trigger] actions@[k] == if was + k < o.len() {
                        Action::Unpause((was + k) as usize)
                    } else {
                        Action::Spawn {
                            id: self.threads@[was + k].id,
                            length: self.threads@[was + k].length,
                            writer_type: task_at(min_len, h0 + was + k - o.len()).1,
                        }
                    },
            ensures
                self.wf(),
                self.counts@ == old(self).counts@,
                self.total_count == old(self).total_count,
                self.target_thread_count == old(self).target_thread_count,
                self.paused == old(self).paused,
                self.min_length == min_len,
                self.max_length == old(self).max_length,
                was <= active <= want || (was > want && active == was),
                was < want || active == was,
                active <= self.threads@.len(),
                self.threads@.len() >= o.len(),
                self.handed_out() == h0 + self.threads@.len() - o.len(),
                active == want || (!self.tasks_left && active == self.threads@.len()) || was
                    >= want,
                forall|k: int|
                    0 <= k < self.threads@.len() ==> (#[trigger] self.threads@[k]).should_be_running
                        == (k < active),
                forall|k: int|
                    0 <= k < o.len() ==> (#[trigger] self.threads@[k]).id == o[k].id
                        && self.threads@[k].length == o[k].length
                        && self.threads@[k].reported_status == o[k].reported_status,
                forall|k: int|
                    o.len() <= k < self.threads@.len() ==> {
                        &&& (#[trigger] self.threads@[k]).reported_status is None
                        &&& self.threads@[k].length == task_at(min_len, h0 + k - o.len()).0
                        &&& is_free_id(self.threads@.take(k), self.threads@[k].id as int)
                    },
                was < want ==> actions@.len() == active - was,
                was >= want ==> actions@.len() == 0,
                forall|k: int|
                    0 <= k < actions@.len() ==> #[trigger] actions@[k] == if was + k < o.len() {
                        Action::Unpause((was + k) as usize)
                    } else {
                        Action::Spawn {
                            id: self.threads@[was + k].id,
                            length: self.threads@[was + k].length,
                            writer_type: task_at(min_len, h0 + was + k - o.len()).1,
                        }
                    },
            decreases want - active,
        {
            if active < self.threads.len() {
                let ghost before = self.threads@;
                let old_thread = self.threads.remove(active);
                let t = Thread {
                    id: old_thread.id,
                    length: old_thread.length,
                    reported_status: old_thread.reported_status,
                    should_be_running: true,
                };
                self.threads.insert(active, t);
                proof {
                    assert(self.threads@ =~= before.update(active as int, t));
                    assert(active < o.len());
                }
                actions.push(Action::Unpause(active));
            } else {
                let task = self.take_task();
                match task {
                    None => {
                        break;
                    },
                    Some((length, writer_type)) => {
                        let id = self.free_id();
                        let ghost before = self.threads@;
                        self.threads.push(
                            Thread {
                                id,
                                length,
                                reported_status: None,
                                should_be_running: true,
                            },
                        );
                        proof {
                            assert(self.threads@.take(before.len() as int) =~= before);
                            assert forall|k: int| 0 <= k < before.len() implies #[trigger] self.threads@.take(k) == before.take(k) by {
                                assert(self.threads@.take(k) =~= before.take(k));
                            }
                            assert(ids(before).len() == before.len());
                            assert forall|a: int, b: int|
                                0 <= a < b < self.threads@.len() implies self.threads@[a].id
                                != self.threads@[b].id by {
                                if b == before.len() {
                                    assert(ids(before)[a] == before[a].id);
                                }
                            }
                        }
                        actions.push(Action::Spawn { id, length, writer_type });
                    },
                }
            }
            active = active + 1;
        }
        let ghost mid = self.threads@;
        let ghost tl = self.tasks_left;
        let ghost acts_mid = actions@;
        let ghost active_mid = active;
        while active > want
            invariant
                self.wf(),
                self.tasks_left == tl,
                was <= want ==> self.threads@ == mid,
                was <= want ==> actions@ == acts_mid && active == active_mid,
                self.threads@.len() == mid.len(),
                want < active <= self.threads@.len() || active <= want,
                active <= self.threads@.len(),
                was > want ==> want <= active <= was,
                was <= want ==> active <= want,
                was > want ==> mid == o,
                forall|k: int|
                    0 <= k < self.threads@.len() ==> (#[trigger] self.threads@[k]).should_be_running
                        == (k < active),
                forall|k: int|
                    0 <= k < mid.len() ==> (#[trigger] self.threads@[k]).id == mid[k].id
                        && self.threads@[k].length == mid[k].length
                        && self.threads@[k].reported_status == mid[k].reported_status,
                self.counts@ == old(self).counts@,
                self.total_count == old(self).total_count,
                self.target_thread_count == old(self).target_thread_count,
                self.paused == old(self).paused,
                self.min_length == min_len,
                self.max_length == old(self).max_length,
                self.handed_out() == h0 + mid.len() - o.len(),
                was > want ==> actions@ == Seq::new(
                    (was - active) as nat,
                    |k: int| Action::Pause((was - 1 - k) as usize),
                ),
            decreases active,
        {
            let ghost before = self.threads@;
            let old_thread = self.threads.remove(active - 1);
            let t = Thread {
                id: old_thread.id,
                length: old_thread.length,
                reported_status: old_thread.reported_status,
                should_be_running: false,
            };
            self.threads.insert(active - 1, t);
            proof {
                assert(self.threads@ =~= before.update(active - 1, t));
            }
            actions.push(Action::Pause(active - 1));
            active = active - 1;
            proof {
                assert(actions@ =~= Seq::new(
                    (was - active) as nat,
                    |k: int| Action::Pause((was - 1 - k) as usize),
                ));
            }
        }
        proof {
            lemma_running_prefix(self.threads@);
            let rc = running_count(self.threads@);
            if rc < active {
                assert(self.threads@[rc].should_be_running == (rc < active));
                assert(self.threads@[rc].should_be_running == (rc < rc));
            }
            if rc > active {
                let k = active as int;
                assert(self.threads@[k].should_be_running == (k < active));
                assert(self.threads@[k].should_be_running == (k < rc));
            }
            assert(rc == active);
            if was >= want {
                assert(active == want);
                assert(actions@ =~= Seq::new(
                    (was - want) as nat,
                    |k: int| Action::Pause((was - 1 - k) as usize),
                ));
            }
        }
        actions
    }
}

} // verus!
