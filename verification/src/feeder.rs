//! The arrival feeder: it orders the submitted processes by arrival tick and
//! releases each one no earlier than that tick.

use crate::process::Process;
use std::collections::VecDeque;
use vstd::prelude::*;

verus! {

/// Whether the processes stand in non-decreasing order of arrival.
pub open spec fn sorted_by_entry(s: Seq<Process>) -> bool {
    forall|a: int, b: int| 0 <= a <= b < s.len() ==> s[a].entry_time <= s[b].entry_time
}

/// Number of leading processes of `s` that arrive before tick `entry`.
pub open spec fn lower_bound(s: Seq<Process>, entry: int) -> int
    decreases s.len(),
{
    if s.len() == 0 || s[0].entry_time >= entry {
        0
    } else {
        1 + lower_bound(s.drop_first(), entry)
    }
}

/// The order in which the feeder delivers `s`: each process, from the last
/// submitted to the first, is placed in front of those that arrive no
/// earlier than it does.
pub open spec fn sorted_arrivals(s: Seq<Process>) -> Seq<Process>
    decreases s.len(),
{
    if s.len() == 0 {
        Seq::empty()
    } else {
        let rest = sorted_arrivals(s.drop_first());
        rest.insert(lower_bound(rest, s[0].entry_time as int), s[0])
    }
}

/// Whether submission `i` must be delivered before submission `j`: it
/// arrives earlier, or at the same tick and was submitted first.
pub open spec fn precedes(s: Seq<Process>, i: int, j: int) -> bool {
    s[i].entry_time < s[j].entry_time || (s[i].entry_time == s[j].entry_time && i < j)
}

/// For each submission, its position in the delivery order.
pub open spec fn landing(s: Seq<Process>) -> Seq<int>
    decreases s.len(),
{
    if s.len() == 0 {
        Seq::empty()
    } else {
        let k = lower_bound(sorted_arrivals(s.drop_first()), s[0].entry_time as int);
        let tail = landing(s.drop_first());
        Seq::new(
            s.len(),
            |i: int|
                if i == 0 {
                    k
                } else if tail[i - 1] < k {
                    tail[i - 1]
                } else {
                    tail[i - 1] + 1
                },
        )
    }
}

/// In a sorted sequence the lower bound splits those that arrive before
/// `entry` from those that do not.
pub proof fn lemma_lower_bound(s: Seq<Process>, entry: int)
    requires
        sorted_by_entry(s),
    ensures
        0 <= lower_bound(s, entry) <= s.len(),
        forall|a: int| 0 <= a < lower_bound(s, entry) ==> (#[trigger] s[a]).entry_time < entry,
        forall|a: int|
            lower_bound(s, entry) <= a < s.len() ==> (#[trigger] s[a]).entry_time >= entry,
    decreases s.len(),
{
    if s.len() == 0 || s[0].entry_time >= entry {
    } else {
        let d = s.drop_first();
        assert forall|a: int, b: int| 0 <= a <= b < d.len() implies d[a].entry_time
            <= d[b].entry_time by {
            assert(d[a] == s[a + 1] && d[b] == s[b + 1]);
        }
        lemma_lower_bound(d, entry);
        assert forall|a: int| 0 <= a < lower_bound(s, entry) implies (#[trigger] s[a]).entry_time
            < entry by {
            if a > 0 {
                assert(s[a] == d[a - 1]);
            }
        }
        assert forall|a: int| lower_bound(s, entry) <= a < s.len() implies (
        #[trigger] s[a]).entry_time >= entry by {
            assert(s[a] == d[a - 1]);
        }
    }
}

/// A position that splits those that arrive before `entry` from the next one
/// that does not is the lower bound.
pub proof fn lemma_lower_bound_found(s: Seq<Process>, entry: int, k: int)
    requires
        0 <= k <= s.len(),
        forall|a: int| 0 <= a < k ==> (#[trigger] s[a]).entry_time < entry,
        k < s.len() ==> s[k].entry_time >= entry,
    ensures
        lower_bound(s, entry) == k,
    decreases s.len(),
{
    if k > 0 {
        let d = s.drop_first();
        assert(s[0].entry_time < entry);
        assert forall|a: int| 0 <= a < k - 1 implies (#[trigger] d[a]).entry_time < entry by {
            assert(d[a] == s[a + 1]);
        }
        lemma_lower_bound_found(d, entry, k - 1);
    }
}

/// Placing a process in front of those that arrive no earlier, or behind
/// those that arrive no later, keeps a sorted sequence sorted.
pub proof fn lemma_insert_sorted(s: Seq<Process>, p: Process, bound: int)
    requires
        sorted_by_entry(s),
        p.entry_time <= bound <= p.entry_time + 1,
    ensures
        sorted_by_entry(s.insert(lower_bound(s, bound), p)),
        s.insert(lower_bound(s, bound), p).len() == s.len() + 1,
{
    lemma_lower_bound(s, bound);
    let k = lower_bound(s, bound);
    let t = s.insert(k, p);
    assert forall|a: int, b: int| 0 <= a <= b < t.len() implies t[a].entry_time
        <= t[b].entry_time by {
        let ea = if a < k {
            s[a]
        } else if a == k {
            p
        } else {
            s[a - 1]
        };
        let eb = if b < k {
            s[b]
        } else if b == k {
            p
        } else {
            s[b - 1]
        };
        assert(t[a] == ea);
        assert(t[b] == eb);
    }
}

/// The delivery order is sorted by arrival tick and holds as many processes
/// as were submitted.
pub proof fn lemma_sorted_arrivals(s: Seq<Process>)
    ensures
        sorted_by_entry(sorted_arrivals(s)),
        sorted_arrivals(s).len() == s.len(),
    decreases s.len(),
{
    if s.len() > 0 {
        lemma_sorted_arrivals(s.drop_first());
        lemma_insert_sorted(sorted_arrivals(s.drop_first()), s[0], s[0].entry_time as int);
    }
}

/// The delivery order is the stable sort of the submissions: every
/// submission is delivered, at the position that `landing` gives, and
/// whenever one submission arrives earlier than another, or at the same tick
/// and was submitted first, it is delivered first.
pub proof fn lemma_landing(s: Seq<Process>)
    ensures
        landing(s).len() == s.len(),
        sorted_arrivals(s).len() == s.len(),
        forall|i: int|
            0 <= i < s.len() ==> 0 <= (#[trigger] landing(s)[i]) < s.len() && sorted_arrivals(
                s,
            )[landing(s)[i]] == s[i],
        forall|i: int, j: int|
            0 <= i < s.len() && 0 <= j < s.len() && precedes(s, i, j) ==> landing(s)[i] < landing(
                s,
            )[j],
    decreases s.len(),
{
    if s.len() > 0 {
        let d = s.drop_first();
        let rest = sorted_arrivals(d);
        let e = s[0].entry_time as int;
        let k = lower_bound(rest, e);
        let tail = landing(d);
        let out = sorted_arrivals(s);
        lemma_landing(d);
        lemma_sorted_arrivals(d);
        lemma_lower_bound(rest, e);
        assert(out == rest.insert(k, s[0]));
        assert forall|i: int| 0 <= i < s.len() implies 0 <= (#[trigger] landing(s)[i]) < s.len()
            && out[landing(s)[i]] == s[i] by {
            if i > 0 {
                assert(d[i - 1] == s[i]);
                assert(rest[tail[i - 1]] == d[i - 1]);
            }
        }
        assert forall|i: int, j: int|
            0 <= i < s.len() && 0 <= j < s.len() && precedes(s, i, j) implies landing(s)[i]
            < landing(s)[j] by {
            if i > 0 {
                assert(d[i - 1] == s[i]);
                assert(rest[tail[i - 1]] == d[i - 1]);
            }
            if j > 0 {
                assert(d[j - 1] == s[j]);
                assert(rest[tail[j - 1]] == d[j - 1]);
            }
            if i > 0 && j > 0 {
                assert(precedes(d, i - 1, j - 1));
            }
        }
    }
}

/// Number of leading processes of the queue that arrive before tick `bound`.
fn first_not_before(queue: &VecDeque<Process>, bound: u128) -> (k: usize)
    ensures
        k == lower_bound(queue@, bound as int),
        k <= queue@.len(),
{
    let mut k: usize = 0;
    while k < queue.len() && (queue[k].entry_time as u128) < bound
        invariant
            k <= queue.len(),
            forall|a: int| 0 <= a < k ==> (#[trigger] queue@[a]).entry_time < bound,
        decreases queue.len() - k,
    {
        k += 1;
    }
    proof {
        lemma_lower_bound_found(queue@, bound as int, k as int);
    }
    k
}

/// The arrival feeder: the processes not yet delivered, next one first.
pub struct ArrivalFeeder {
    pending: VecDeque<Process>,
}

impl View for ArrivalFeeder {
    type V = Seq<Process>;

    closed spec fn view(&self) -> Seq<Process> {
        self.pending@
    }
}

impl ArrivalFeeder {
    /// The pending processes stand in non-decreasing order of arrival.
    pub open spec fn wf(&self) -> bool {
        sorted_by_entry(self@)
    }

    /// Takes the submitted processes and puts them in delivery order: by
    /// arrival tick, and among those of one tick by order of submission.
    pub fn new(procs: Vec<Process>) -> (f: ArrivalFeeder)
        ensures
            f@ == sorted_arrivals(procs@),
            f@.len() == procs@.len(),
            f.wf(),
    {
        let ghost orig = procs@;
        let mut procs = procs;
        let mut out: VecDeque<Process> = VecDeque::new();
        assert(orig.skip(orig.len() as int) =~= Seq::empty());
        while procs.len() > 0
            invariant
                procs@ == orig.take(procs.len() as int),
                procs.len() <= orig.len(),
                out@ == sorted_arrivals(orig.skip(procs.len() as int)),
                out@.len() == orig.len() - procs.len(),
                sorted_by_entry(out@),
            decreases procs.len(),
        {
            let ghost m = procs.len() as int;
            let p = procs.pop().unwrap();
            let k = first_not_before(&out, p.entry_time as u128);
            proof {
                lemma_insert_sorted(out@, p, p.entry_time as int);
                assert(orig.skip(m - 1).drop_first() =~= orig.skip(m));
                assert(orig.skip(m - 1)[0] == p);
                assert(procs@ =~= orig.take(m - 1));
            }
            out.insert(k, p);
        }
        assert(orig.skip(0) =~= orig);
        ArrivalFeeder { pending: out }
    }

    /// An empty feeder.
    pub fn empty() -> (f: ArrivalFeeder)
        ensures
            f@ == Seq::<Process>::empty(),
            f.wf(),
    {
        ArrivalFeeder { pending: VecDeque::new() }
    }

    /// Takes one more process, behind the pending ones that arrive no later
    /// than it does and in front of the others.
    pub fn submit(&mut self, p: Process)
        ensures
            final(self)@ == old(self)@.insert(
                lower_bound(old(self)@, p.entry_time as int + 1),
                p,
            ),
            final(self)@.len() == old(self)@.len() + 1,
            old(self).wf() ==> final(self).wf(),
    {
        let k = first_not_before(&self.pending, p.entry_time as u128 + 1);
        proof {
            if self.wf() {
                lemma_insert_sorted(self@, p, p.entry_time as int + 1);
            }
        }
        self.pending.insert(k, p);
    }

    /// Number of processes not yet delivered.
    pub fn len(&self) -> (n: usize)
        ensures
            n == self@.len(),
    {
        self.pending.len()
    }

    /// Whether every process has been delivered: the feeder has closed.
    pub fn is_closed(&self) -> (b: bool)
        ensures
            b == (self@.len() == 0),
    {
        self.pending.len() == 0
    }

    /// Arrival tick of the next process to deliver, if one is left.
    pub fn next_entry(&self) -> (e: Option<usize>)
        ensures
            e == if self@.len() > 0 {
                Some(self@[0].entry_time)
            } else {
                None
            },
    {
        if self.pending.len() > 0 {
            Some(self.pending[0].entry_time)
        } else {
            None
        }
    }

    /// Estimates how long the simulation of the pending processes takes:
    /// their makespan and one tick more.
    pub fn estimate(&self) -> (t: u128)
        ensures
            t == crate::clock::makespan(self@) + 1,
            t < u128::MAX,
    {
        crate::clock::estimated_total_time(&self.pending)
    }

    /// Whether every pending process is as `Process::new` makes it.
    pub fn all_fresh(&self) -> (b: bool)
        ensures
            b == forall|i: int| 0 <= i < self@.len() ==> (#[trigger] self@[i]).is_fresh(),
    {
        let mut i: usize = 0;
        while i < self.pending.len()
            invariant
                i <= self.pending.len(),
                forall|j: int| 0 <= j < i ==> (#[trigger] self.pending@[j]).is_fresh(),
            decreases self.pending.len() - i,
        {
            if !self.pending[i].fresh() {
                assert(!self@[i as int].is_fresh());
                return false;
            }
            i += 1;
        }
        true
    }

    /// Delivers the next process if its arrival tick has come by tick `now`.
    /// Nothing is delivered early, out of order, or twice.
    pub fn poll(&mut self, now: u128) -> (r: Option<Process>)
        ensures
            r == if old(self)@.len() > 0 && old(self)@[0].entry_time <= now {
                Some(old(self)@[0])
            } else {
                None
            },
            final(self)@ == if r is Some {
                old(self)@.drop_first()
            } else {
                old(self)@
            },
            old(self).wf() ==> final(self).wf(),
    {
        if self.pending.len() > 0 && self.pending[0].entry_time as u128 <= now {
            let r = self.pending.pop_front();
            proof {
                let d = old(self)@.drop_first();
                assert forall|a: int, b: int|
                    old(self).wf() && 0 <= a <= b < d.len() implies d[a].entry_time
                    <= d[b].entry_time by {
                    assert(d[a] == old(self)@[a + 1] && d[b] == old(self)@[b + 1]);
                }
            }
            r
        } else {
            None
        }
    }
}

/// Relays every process waiting in `receiver_proc_from_main` to the tail of
/// `sender_to_proc_handler`, oldest first. Both ends are ordered queues:
/// nothing is lost, reordered or relayed twice.
pub fn getting_proc_thread(
    sender_to_proc_handler: &mut VecDeque<Process>,
    receiver_proc_from_main: &mut VecDeque<Process>,
)
    ensures
        final(sender_to_proc_handler)@ == old(sender_to_proc_handler)@ + old(
            receiver_proc_from_main,
        )@,
        final(receiver_proc_from_main)@.len() == 0,
{
    let ghost incoming = receiver_proc_from_main@;
    let ghost start = sender_to_proc_handler@;
    let ghost mut sent: int = 0;
    loop
        invariant
            0 <= sent <= incoming.len(),
            receiver_proc_from_main@ == incoming.skip(sent),
            sender_to_proc_handler@ == start + incoming.take(sent),
        ensures
            sent == incoming.len(),
            receiver_proc_from_main@.len() == 0,
            sender_to_proc_handler@ == start + incoming.take(sent),
        decreases incoming.len() - sent,
    {
        match receiver_proc_from_main.pop_front() {
            Some(res) => {
                sender_to_proc_handler.push_back(res);
                proof {
                    assert(incoming.skip(sent).drop_first() =~= incoming.skip(sent + 1));
                    assert((start + incoming.take(sent)).push(incoming[sent]) =~= start
                        + incoming.take(sent + 1));
                    sent = sent + 1;
                }
            },
            None => {
                break ;
            },
        }
    }
    assert(incoming.take(sent) =~= incoming);
}

} // verus!
