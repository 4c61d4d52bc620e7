//! Scheduling: the round-robin run queue, where an idle CPU looks for work, and sleeping
//! threads.
use vstd::prelude::*;

verus! {

/// Thread flag: the thread is no longer runnable.
pub const STOPPED: u32 = 1 << 0;
/// Thread flag: the thread is asked to stop running.
pub const STOPPING: u32 = 1 << 1;
/// Thread flag: the thread is blocked on a synchronization object.
pub const BLOCKED: u32 = 1 << 2;
/// Thread flag: the thread's blocking can be interrupted by signals.
pub const SIGNALABLE: u32 = 1 << 3;
/// Thread flag: the thread is using the CPU.
pub const RUNNING: u32 = 1 << 4;

/// Whether a thread with flags `f` has stopped.
pub open spec fn is_stopped(f: u32) -> bool {
    f & STOPPED != 0
}

/// Whether a thread with flags `f` may run.
pub open spec fn is_runnable(f: u32) -> bool {
    f & STOPPED == 0 && f & BLOCKED == 0
}

/// Index of the first runnable thread from `from` on, by the flags `f`, or the length of `f`.
pub open spec fn first_runnable(f: Seq<u32>, from: int) -> int
    decreases f.len() - from,
{
    if from < 0 || from >= f.len() {
        f.len() as int
    } else if is_runnable(f[from]) {
        from
    } else {
        first_runnable(f, from + 1)
    }
}

/// The threads among the first `n` of `q` that have stopped (`stopped`), or that have not.
pub open spec fn select<T>(q: Seq<T>, f: Seq<u32>, n: int, stopped: bool) -> Seq<T>
    decreases n,
{
    if n <= 0 {
        Seq::empty()
    } else if is_stopped(f[n - 1]) == stopped {
        select(q, f, n - 1, stopped).push(q[n - 1])
    } else {
        select(q, f, n - 1, stopped)
    }
}

/// A simple round-robin run queue.
pub struct RoundRobinAlgorithm<T> {
    pub queue: Vec<T>,
}

impl<T> RoundRobinAlgorithm<T> {
    /// An empty queue.
    pub fn new() -> (r: Self)
        ensures
            r.queue@ == Seq::<T>::empty(),
    {
        RoundRobinAlgorithm { queue: Vec::new() }
    }

    /// A thread that yielded goes to the back of the queue.
    pub fn return_thread(&mut self, thread: T)
        ensures
            final(self).queue@ == old(self).queue@.push(thread),
    {
        self.queue.push(thread);
    }

    /// A new thread goes to the back of the queue.
    pub fn add_thread(&mut self, thread: T)
        ensures
            final(self).queue@ == old(self).queue@.push(thread),
    {
        self.queue.push(thread);
    }

    /// A thread that should run first goes to the front of the queue.
    pub fn add_thread_front(&mut self, thread: T)
        ensures
            final(self).queue@ == seq![thread] + old(self).queue@,
    {
        self.queue.insert(0, thread);
        assert(self.queue@ =~= seq![thread] + old(self).queue@);
    }

    /// How many threads are in the queue.
    pub fn len(&self) -> (r: usize)
        ensures
            r == self.queue@.len(),
    {
        self.queue.len()
    }

    /// Choose the next thread to run, given `flags`, the flags of the queued threads in queue
    /// order. Threads are taken from the front: a stopped one leaves the queue for the reaper,
    /// a blocked one goes to the back, and the first runnable one is chosen. Returns the chosen
    /// thread, if any, and the stopped ones, in queue order.
    pub fn choose_thread(&mut self, flags: &Vec<u32>) -> (r: (Option<T>, Vec<T>))
        requires
            flags@.len() == old(self).queue@.len(),
        ensures
            r.1@ == select(old(self).queue@, flags@, first_runnable(flags@, 0), true),
            first_runnable(flags@, 0) < old(self).queue@.len() ==> r.0 == Some(old(self).queue@[first_runnable(flags@, 0)]),
            first_runnable(flags@, 0) < old(self).queue@.len() ==> final(self).queue@ == old(self).queue@.subrange(
                first_runnable(flags@, 0) + 1,
                old(self).queue@.len() as int,
            ) + select(old(self).queue@, flags@, first_runnable(flags@, 0), false),
            first_runnable(flags@, 0) >= old(self).queue@.len() ==> r.0 is None,
            first_runnable(flags@, 0) >= old(self).queue@.len() ==> final(self).queue@ == select(
                old(self).queue@,
                flags@,
                old(self).queue@.len() as int,
                false,
            ),
    {
        let ghost q = self.queue@;
        let n = self.queue.len();
        let mut zombies: Vec<T> = Vec::new();
        let mut i: usize = 0;
        while i < n
            invariant
                q == old(self).queue@,
                n == q.len(),
                flags@.len() == n,
                i <= n,
                self.queue@ == q.subrange(i as int, n as int) + select(q, flags@, i as int, false),
                zombies@ == select(q, flags@, i as int, true),
                first_runnable(flags@, 0) == first_runnable(flags@, i as int),
            decreases n - i,
        {
            assert(self.queue@[0] == q[i as int]);
            let node = self.queue.remove(0);
            let f = flags[i];
            if f & STOPPED != 0 {
                zombies.push(node);
                assert(self.queue@ =~= q.subrange(i + 1, n as int) + select(q, flags@, i + 1, false));
            } else if f & BLOCKED == 0 {
                assert(self.queue@ =~= q.subrange(i + 1, n as int) + select(q, flags@, i as int, false));
                assert(first_runnable(flags@, i as int) == i);
                return (Some(node), zombies);
            } else {
                self.queue.push(node);
                assert(self.queue@ =~= q.subrange(i + 1, n as int) + select(q, flags@, i + 1, false));
            }
            i = i + 1;
        }
        assert(self.queue@ =~= select(q, flags@, n as int, false));
        assert(first_runnable(flags@, n as int) == n);
        (None, zombies)
    }
}

/// The first `n` threads of `q` are exactly those that [`select`] sorts into stopped and not.
pub proof fn lemma_select_splits<T>(q: Seq<T>, f: Seq<u32>, n: int)
    requires
        0 <= n <= q.len(),
    ensures
        select(q, f, n, true).to_multiset().add(select(q, f, n, false).to_multiset())
            =~= q.subrange(0, n).to_multiset(),
    decreases n,
{
    broadcast use vstd::seq_lib::group_to_multiset_ensures, vstd::multiset::group_multiset_axioms;
    if n > 0 {
        lemma_select_splits(q, f, n - 1);
        assert(q.subrange(0, n) =~= q.subrange(0, n - 1).push(q[n - 1]));
    }
}

/// Choosing a thread loses none and makes none up: the chosen thread, the stopped ones and
/// the queue left behind hold together the threads the queue held before; the chosen thread
/// is runnable, and every thread passed over before it is not.
pub proof fn lemma_choose_keeps_threads<T>(q: Seq<T>, f: Seq<u32>)
    requires
        f.len() == q.len(),
    ensures
        ({
            let k = first_runnable(f, 0);
            &&& k < q.len() ==> is_runnable(f[k])
                && (q.subrange(k + 1, q.len() as int) + select(q, f, k, false)).to_multiset()
                    .add(select(q, f, k, true).to_multiset()).insert(q[k]) =~= q.to_multiset()
            &&& k >= q.len() ==> select(q, f, q.len() as int, false).to_multiset()
                .add(select(q, f, q.len() as int, true).to_multiset()) =~= q.to_multiset()
            &&& forall|j: int| 0 <= j < k && j < q.len() ==> !is_runnable(#[trigger] f[j])
        }),
{
    broadcast use vstd::seq_lib::group_to_multiset_ensures, vstd::multiset::group_multiset_axioms,
        vstd::seq_lib::lemma_multiset_commutative;
    lemma_first_runnable(f, 0);
    let k = first_runnable(f, 0);
    if k < q.len() {
        lemma_select_splits(q, f, k);
        let front = q.subrange(0, k);
        let back = q.subrange(k + 1, q.len() as int);
        assert(q =~= front.push(q[k]) + back);
        vstd::seq_lib::lemma_multiset_commutative(front.push(q[k]), back);
        vstd::seq_lib::lemma_multiset_commutative(back, select(q, f, k, false));
    } else {
        lemma_select_splits(q, f, q.len() as int);
        assert(q.subrange(0, q.len() as int) =~= q);
    }
}

/// The thread that choosing picks has neither the stopped nor the blocked flag set, whether or
/// not signals may interrupt its blocking; every thread passed over before it, and every
/// thread when none is picked, has one of them set.
pub proof fn lemma_chosen_flags(f: Seq<u32>)
    ensures
        ({
            let k = first_runnable(f, 0);
            &&& 0 <= k <= f.len()
            &&& k < f.len() ==> f[k] & STOPPED == 0 && f[k] & BLOCKED == 0
            &&& forall|j: int| 0 <= j < k ==> (#[trigger] f[j]) & STOPPED != 0 || f[j] & BLOCKED != 0
        }),
{
    lemma_first_runnable(f, 0);
}

/// The index that [`first_runnable`] gives is that of a runnable thread, and none before it
/// from `from` on is.
pub proof fn lemma_first_runnable(f: Seq<u32>, from: int)
    requires
        0 <= from <= f.len(),
    ensures
        from <= first_runnable(f, from) <= f.len(),
        first_runnable(f, from) < f.len() ==> is_runnable(f[first_runnable(f, from)]),
        forall|j: int| from <= j < first_runnable(f, from) ==> !is_runnable(#[trigger] f[j]),
    decreases f.len() - from,
{
    if from < f.len() && !is_runnable(f[from]) {
        lemma_first_runnable(f, from + 1);
    }
}

/// The CPU with the highest load average other than `cur`, to take work from: `loads[c]` is
/// the load of CPU `c`, or `None` where it has no scheduler. On equal loads the lower number
/// wins.
pub fn busiest_cpu(loads: &Vec<Option<i32>>, cur: usize) -> (r: Option<usize>)
    ensures
        r is None <==> forall|c: int| 0 <= c < loads@.len() && c != cur ==> loads@[c] is None,
        r matches Some(b) ==> {
            &&& b < loads@.len() && b != cur && loads@[b as int] is Some
            &&& forall|c: int| 0 <= c < loads@.len() && c != cur && loads@[c] is Some
                ==> loads@[c]->0 <= loads@[b as int]->0
            &&& forall|c: int| 0 <= c < b && c != cur && loads@[c] is Some ==> loads@[c]->0 < loads@[b as int]->0
        },
{
    let mut busiest: Option<usize> = None;
    let mut highest: i32 = 0;
    let mut cpu: usize = 0;
    while cpu < loads.len()
        invariant
            cpu <= loads@.len(),
            busiest is None <==> forall|c: int| 0 <= c < cpu && c != cur ==> loads@[c] is None,
            busiest matches Some(b) ==> {
                &&& b < cpu && b != cur && loads@[b as int] == Some(highest)
                &&& forall|c: int| 0 <= c < cpu && c != cur && loads@[c] is Some ==> loads@[c]->0 <= highest
                &&& forall|c: int| 0 <= c < b && c != cur && loads@[c] is Some ==> loads@[c]->0 < highest
            },
        decreases loads@.len() - cpu,
    {
        if cpu != cur {
            match loads[cpu] {
                Some(load) => {
                    if busiest.is_none() || highest < load {
                        busiest = Some(cpu);
                        highest = load;
                    }
                },
                None => {},
            }
        }
        cpu = cpu + 1;
    }
    busiest
}

/// A sleep of the calling thread for a fixed amount of time, in microseconds: it lasts until the
/// clock reaches its deadline.
pub struct Sleep {
    deadline: i64,
}

impl Sleep {
    /// When the sleep ends.
    pub closed spec fn spec_deadline(&self) -> int {
        self.deadline as int
    }

    /// A sleep of `amount` microseconds that begins at time `now`.
    pub fn new(now: i64, amount: i64) -> (r: Self)
        requires
            i64::MIN <= now + amount <= i64::MAX,
        ensures
            r.spec_deadline() == now + amount,
    {
        Sleep { deadline: now + amount }
    }

    /// A sleep of `amount` microseconds from time `now`, its deadline held at the ends of the
    /// clock's range where the sum would pass them.
    pub fn sleep_deadline(now: i64, amount: i64) -> (r: Self)
        ensures
            r.spec_deadline() == if now + amount > i64::MAX {
                i64::MAX as int
            } else if now + amount < i64::MIN {
                i64::MIN as int
            } else {
                now + amount
            },
    {
        if amount > 0 && now > i64::MAX - amount {
            Sleep { deadline: i64::MAX }
        } else if amount < 0 && now < i64::MIN - amount {
            Sleep { deadline: i64::MIN }
        } else {
            Sleep::new(now, amount)
        }
    }

    /// Whether the sleep is over at time `now`; until then the thread keeps yielding.
    pub fn is_over(&self, now: i64) -> (r: bool)
        ensures
            r == (now >= self.spec_deadline()),
    {
        now >= self.deadline
    }
}

} // verus!
