use vstd::prelude::*;

use crate::NodeItemTraits;
use crate::count_inserts;
use crate::count_removes;

verus! {

/// Link from a queue node to the slot of its successor (or to nothing).
pub type QueuePointer = Option<usize>;

/// One cell of a queue: an item and the slot of the node behind it.
pub struct QueueNode<T: NodeItemTraits> {
    pub item: T,
    pub next: QueuePointer,
}

impl<T: NodeItemTraits> QueueNode<T> {
    pub fn new(item: T, next: QueuePointer) -> (r: Self)
        ensures
            r.item == item,
            r.next == next,
    {
        Self { item, next }
    }
}

/// What a dequeue does to a queue whose items are `s` (front first): the queue
/// left behind and the value returned.
pub open spec fn dequeue_spec<T>(s: Seq<T>) -> (Seq<T>, Option<T>) {
    if s.len() == 0 {
        (s, None)
    } else {
        (s.drop_first(), Some(s[0]))
    }
}

/// The queue after enqueuing `items` onto `s`, first item first.
pub open spec fn enqueue_all<T>(s: Seq<T>, items: Seq<T>) -> Seq<T>
    decreases items.len(),
{
    if items.len() == 0 {
        s
    } else {
        enqueue_all(s, items.drop_last()).push(items.last())
    }
}

/// The queue after `n` dequeues from `s`, and the values they return, in order.
pub open spec fn dequeue_times<T>(s: Seq<T>, n: nat) -> (Seq<T>, Seq<Option<T>>)
    decreases n,
{
    if n == 0 {
        (s, Seq::empty())
    } else {
        let (rest, r) = dequeue_spec(s);
        let (last, rs) = dequeue_times(rest, (n - 1) as nat);
        (last, seq![r] + rs)
    }
}

/// The queue after the run `ops` (`Some(x)` enqueues `x`, `None` dequeues) from
/// `s`, and the values the dequeues return, in order.
pub open spec fn run_queue<T>(s: Seq<T>, ops: Seq<Option<T>>) -> (Seq<T>, Seq<Option<T>>)
    decreases ops.len(),
{
    if ops.len() == 0 {
        (s, Seq::empty())
    } else {
        let (mid, outs) = run_queue(s, ops.drop_last());
        match ops.last() {
            Some(x) => (mid.push(x), outs),
            None => {
                let (rest, r) = dequeue_spec(mid);
                (rest, outs.push(r))
            },
        }
    }
}

proof fn lemma_enqueue_all_appends<T>(s: Seq<T>, items: Seq<T>)
    ensures
        enqueue_all(s, items) == s + items,
    decreases items.len(),
{
    if items.len() > 0 {
        lemma_enqueue_all_appends(s, items.drop_last());
        assert(s + items =~= (s + items.drop_last()).push(items.last()));
    }
}

proof fn lemma_dequeue_times<T>(s: Seq<T>, n: nat)
    requires
        n <= s.len(),
    ensures
        dequeue_times(s, n).0 == s.subrange(n as int, s.len() as int),
        dequeue_times(s, n).1.len() == n,
        forall|k: int| 0 <= k < n ==> dequeue_times(s, n).1[k] == Some(s[k]),
    decreases n,
{
    if n == 0 {
        assert(s.subrange(0, s.len() as int) =~= s);
    } else {
        let rest = s.drop_first();
        lemma_dequeue_times(rest, (n - 1) as nat);
        assert(rest.subrange(n - 1, rest.len() as int) =~= s.subrange(n as int, s.len() as int));
        let outs = dequeue_times(s, n).1;
        assert forall|k: int| 0 <= k < n implies outs[k] == Some(s[k]) by {
            if k > 0 {
                assert(outs[k] == dequeue_times(rest, (n - 1) as nat).1[k - 1]);
            }
        }
    }
}

/// Enqueuing `items` onto an empty queue and then dequeuing as many times
/// returns the items in the order they went in and leaves the queue empty.
pub proof fn lemma_fifo<T>(items: Seq<T>)
    ensures
        ({
            let (rest, outs) = dequeue_times(enqueue_all(Seq::empty(), items), items.len());
            &&& rest.len() == 0
            &&& outs.len() == items.len()
            &&& forall|k: int| 0 <= k < items.len() ==> outs[k] == Some(items[k])
        }),
{
    lemma_enqueue_all_appends(Seq::empty(), items);
    assert(Seq::<T>::empty() + items =~= items);
    lemma_dequeue_times(items, items.len());
}

/// Over any run of enqueues and dequeues, the queue gains one item per enqueue
/// and loses at most one per dequeue; so it is never empty while enqueues
/// outnumber dequeues.
pub proof fn lemma_queue_size<T>(s: Seq<T>, ops: Seq<Option<T>>)
    ensures
        run_queue(s, ops).0.len() <= s.len() + count_inserts(ops),
        run_queue(s, ops).0.len() + count_removes(ops) >= s.len() + count_inserts(ops),
    decreases ops.len(),
{
    if ops.len() > 0 {
        lemma_queue_size(s, ops.drop_last());
    }
}

/// A dequeue returns a value exactly when the queue is not empty, in every state.
pub proof fn lemma_dequeue_value_iff_nonempty<T>(s: Seq<T>)
    ensures
        dequeue_spec(s).1 is Some <==> s.len() > 0,
        s.len() == 1 ==> dequeue_spec(s).0.len() == 0,
{
}

/// A queue holds exactly one element after the first enqueue into an empty
/// queue, no longer after a second one, and after a dequeue exactly when two
/// elements were there before it.
pub proof fn lemma_one_element<T>(s: Seq<T>, x: T, y: T)
    ensures
        Seq::<T>::empty().push(x).len() == 1,
        Seq::<T>::empty().push(x).push(y).len() != 1,
        dequeue_spec(s).0.len() == 1 <==> s.len() == 2,
{
}

/// A first-in, first-out queue whose nodes live in an arena and are linked by slot index.
///
/// Slots given up by `dequeue` go on a free list and are reused by `enqueue`.
pub struct Queue<T: NodeItemTraits> {
    nodes: Vec<QueueNode<T>>,
    head: QueuePointer,
    tail: QueuePointer,
    free: Vec<usize>,
    /// The slots of the queued nodes, front first.
    live: Ghost<Seq<usize>>,
}

/// The slots of `s` are pairwise distinct.
pub open spec fn distinct_slots(s: Seq<usize>) -> bool {
    forall|i: int, j: int| 0 <= i < s.len() && 0 <= j < s.len() && i != j ==> s[i] != s[j]
}

impl<T: NodeItemTraits> View for Queue<T> {
    type V = Seq<T>;

    /// The queued items, front (next to leave) first.
    closed spec fn view(&self) -> Seq<T> {
        Seq::new(self.live@.len(), |i: int| self.nodes@[self.live@[i] as int].item)
    }
}

impl<T: NodeItemTraits> Queue<T> {
    /// The live slots are distinct, inside the arena, apart from the free
    /// slots, and chained front to back by `next`; `head` and `tail` name the
    /// first and the last of them.
    pub closed spec fn well_formed(&self) -> bool {
        let live = self.live@;
        let n = self.nodes.len();
        &&& forall|i: int| 0 <= i < live.len() ==> #[trigger] live[i] < n
        &&& distinct_slots(live)
        &&& forall|j: int| 0 <= j < self.free@.len() ==> #[trigger] self.free@[j] < n
        &&& distinct_slots(self.free@)
        &&& forall|i: int, j: int|
            0 <= i < live.len() && 0 <= j < self.free@.len() ==> #[trigger] live[i]
                != #[trigger] self.free@[j]
        &&& self.head == if live.len() == 0 {
            None
        } else {
            Some(live[0])
        }
        &&& self.tail == if live.len() == 0 {
            None
        } else {
            Some(live.last())
        }
        &&& forall|i: int|
            0 <= i < live.len() - 1 ==> self.nodes@[#[trigger] live[i] as int].next == Some(
                live[i + 1],
            )
        &&& live.len() > 0 ==> self.nodes@[live.last() as int].next is None
    }

    pub fn new() -> (q: Self)
        ensures
            q.well_formed(),
            q@ == Seq::<T>::empty(),
    {
        let q = Self {
            nodes: Vec::new(),
            head: None,
            tail: None,
            free: Vec::new(),
            live: Ghost(Seq::empty()),
        };
        proof {
            assert(q@ =~= Seq::<T>::empty());
        }
        q
    }

    pub fn is_empty(&self) -> (r: bool)
        requires
            self.well_formed(),
        ensures
            r == (self@.len() == 0),
    {
        self.head.is_none()
    }

    /// Whether the front node and the back node are the same node.
    pub fn has_one_element(&self) -> (r: bool)
        requires
            self.well_formed(),
        ensures
            r == (self@.len() == 1),
    {
        if self.is_empty() {
            false
        } else {
            match (self.head, self.tail) {
                (Some(h), Some(t)) => h == t,
                _ => false,
            }
        }
    }

    pub fn enqueue(&mut self, item: T)
        requires
            old(self).well_formed(),
        ensures
            final(self).well_formed(),
            final(self)@ == old(self)@.push(item),
    {
        let ghost live = self.live@;
        let ghost old_view = self@;
        let idx = match self.free.pop() {
            Some(f) => {
                self.nodes.set(f, QueueNode::new(item, None));
                f
            },
            None => {
                self.nodes.push(QueueNode::new(item, None));
                self.nodes.len() - 1
            },
        };
        match self.tail {
            Some(t) => {
                self.nodes[t].next = Some(idx);
            },
            None => {
                self.head = Some(idx);
            },
        }
        self.tail = Some(idx);
        self.live = Ghost(live.push(idx));
        proof {
            assert(self@ =~= old_view.push(item));
        }
    }

    pub fn dequeue(&mut self) -> (r: Option<T>)
        requires
            old(self).well_formed(),
        ensures
            final(self).well_formed(),
            (final(self)@, r) == dequeue_spec(old(self)@),
    {
        match self.head {
            None => None,
            Some(h) => {
                let ghost live = self.live@;
                let ghost old_view = self@;
                let mut out = T::default();
                std::mem::swap(&mut out, &mut self.nodes[h].item);
                if self.has_one_element() {
                    self.head = None;
                    self.tail = None;
                } else {
                    self.head = self.nodes[h].next;
                }
                self.free.push(h);
                self.live = Ghost(live.drop_first());
                proof {
                    assert(self@ =~= old_view.drop_first());
                }
                Some(out)
            },
        }
    }
}

impl<T: NodeItemTraits> Default for Queue<T> {
    fn default() -> (q: Self)
        ensures
            q.well_formed(),
            q@ == Seq::<T>::empty(),
    {
        Self::new()
    }
}

} // verus!
