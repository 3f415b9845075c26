use vstd::prelude::*;

use crate::NodeItemTraits;
use crate::count_inserts;
use crate::count_removes;

verus! {

/// Link from a stack node to the node below it (or to nothing).
pub type StackPointer<T> = Option<Box<StackNode<T>>>;

/// One cell of a stack: an item and exclusive ownership of the cell below.
pub struct StackNode<T: NodeItemTraits> {
    pub item: T,
    pub previous: StackPointer<T>,
}

impl<T: NodeItemTraits> StackNode<T> {
    /// The items reachable from `link`, bottom first.
    pub open spec fn chain(link: StackPointer<T>) -> Seq<T>
        decreases link,
    {
        match link {
            None => Seq::empty(),
            Some(node) => Self::chain(node.previous).push(node.item),
        }
    }

    pub fn new(item: T, previous: StackPointer<T>) -> (r: Self)
        ensures
            r.item == item,
            r.previous == previous,
    {
        Self { item, previous }
    }

    /// The node printed as its item is.
    pub fn to_string(&self) -> (r: String)
        ensures
            vstd::string::to_string_from_display_ensures::<T>(&self.item, r),
    {
        self.item.to_string()
    }
}

/// What a pop does to a stack whose items are `s`: the stack left behind and the value returned.
pub open spec fn pop_spec<T>(s: Seq<T>) -> (Seq<T>, Option<T>) {
    if s.len() == 0 {
        (s, None)
    } else {
        (s.drop_last(), Some(s.last()))
    }
}

/// The stack after pushing `items` onto `s`, first item first.
pub open spec fn push_all<T>(s: Seq<T>, items: Seq<T>) -> Seq<T>
    decreases items.len(),
{
    if items.len() == 0 {
        s
    } else {
        push_all(s, items.drop_last()).push(items.last())
    }
}

/// The stack after `n` pops from `s`, and the values the pops return, in order.
pub open spec fn pop_times<T>(s: Seq<T>, n: nat) -> (Seq<T>, Seq<Option<T>>)
    decreases n,
{
    if n == 0 {
        (s, Seq::empty())
    } else {
        let (rest, r) = pop_spec(s);
        let (last, rs) = pop_times(rest, (n - 1) as nat);
        (last, seq![r] + rs)
    }
}

/// The stack after the run `ops` (`Some(x)` pushes `x`, `None` pops) from `s`,
/// and the values the pops return, in order.
pub open spec fn run_stack<T>(s: Seq<T>, ops: Seq<Option<T>>) -> (Seq<T>, Seq<Option<T>>)
    decreases ops.len(),
{
    if ops.len() == 0 {
        (s, Seq::empty())
    } else {
        let (mid, outs) = run_stack(s, ops.drop_last());
        match ops.last() {
            Some(x) => (mid.push(x), outs),
            None => {
                let (rest, r) = pop_spec(mid);
                (rest, outs.push(r))
            },
        }
    }
}

proof fn lemma_push_all_appends<T>(s: Seq<T>, items: Seq<T>)
    ensures
        push_all(s, items) == s + items,
    decreases items.len(),
{
    if items.len() > 0 {
        lemma_push_all_appends(s, items.drop_last());
        assert(s + items =~= (s + items.drop_last()).push(items.last()));
    }
}

proof fn lemma_pop_times<T>(s: Seq<T>, n: nat)
    requires
        n <= s.len(),
    ensures
        pop_times(s, n).0 == s.subrange(0, s.len() - n),
        pop_times(s, n).1.len() == n,
        forall|k: int| 0 <= k < n ==> pop_times(s, n).1[k] == Some(s[s.len() - 1 - k]),
    decreases n,
{
    if n == 0 {
        assert(s.subrange(0, s.len() as int) =~= s);
    } else {
        let rest = s.drop_last();
        lemma_pop_times(rest, (n - 1) as nat);
        assert(rest.subrange(0, rest.len() - (n - 1)) =~= s.subrange(0, s.len() - n));
        let outs = pop_times(s, n).1;
        assert forall|k: int| 0 <= k < n implies outs[k] == Some(s[s.len() - 1 - k]) by {
            if k > 0 {
                assert(outs[k] == pop_times(rest, (n - 1) as nat).1[k - 1]);
            }
        }
    }
}

/// Pushing `items` onto an empty stack and then popping as many times returns
/// the items in reverse order and leaves the stack empty.
pub proof fn lemma_lifo<T>(items: Seq<T>)
    ensures
        ({
            let (rest, outs) = pop_times(push_all(Seq::empty(), items), items.len());
            &&& rest.len() == 0
            &&& outs.len() == items.len()
            &&& forall|k: int|
                0 <= k < items.len() ==> outs[k] == Some(items[items.len() - 1 - k])
        }),
{
    lemma_push_all_appends(Seq::empty(), items);
    assert(Seq::<T>::empty() + items =~= items);
    lemma_pop_times(items, items.len());
}

/// Over any run of pushes and pops, the stack gains one item per push and
/// loses at most one per pop; so it is never empty while pushes outnumber pops.
pub proof fn lemma_stack_size<T>(s: Seq<T>, ops: Seq<Option<T>>)
    ensures
        run_stack(s, ops).0.len() <= s.len() + count_inserts(ops),
        run_stack(s, ops).0.len() + count_removes(ops) >= s.len() + count_inserts(ops),
    decreases ops.len(),
{
    if ops.len() > 0 {
        lemma_stack_size(s, ops.drop_last());
    }
}

/// A pop returns a value exactly when the stack is not empty, in every state.
pub proof fn lemma_pop_value_iff_nonempty<T>(s: Seq<T>)
    ensures
        pop_spec(s).1 is Some <==> s.len() > 0,
        s.len() == 1 ==> pop_spec(s).0.len() == 0,
{
}

/// Peeking at an `i32` stack any number of times returns the top item each
/// time, and a pop afterwards returns that same item.
pub proof fn lemma_peek_repeats(s: Seq<i32>, peeks: Seq<i32>)
    requires
        s.len() > 0,
        forall|k: int| 0 <= k < peeks.len() ==> cloned::<i32>(s.last(), #[trigger] peeks[k]),
    ensures
        forall|k: int| 0 <= k < peeks.len() ==> #[trigger] peeks[k] == s.last(),
        pop_spec(s).1 == Some(s.last()),
{
}

/// A last-in, first-out stack built as a chain of owned nodes.
pub struct Stack<T: NodeItemTraits> {
    top: StackPointer<T>,
}

impl<T: NodeItemTraits> View for Stack<T> {
    type V = Seq<T>;

    /// The items from the bottom (index 0) to the top (last index).
    closed spec fn view(&self) -> Seq<T> {
        StackNode::chain(self.top)
    }
}

impl<T: NodeItemTraits> Stack<T> {
    pub fn new() -> (s: Self)
        ensures
            s@ == Seq::<T>::empty(),
    {
        Stack { top: None }
    }

    pub fn push(&mut self, item: T)
        ensures
            final(self)@ == old(self)@.push(item),
    {
        let new_node = Box::new(StackNode::new(item, self.top.take()));
        self.top = Some(new_node);
    }

    pub fn pop(&mut self) -> (r: Option<T>)
        ensures
            (final(self)@, r) == pop_spec(old(self)@),
    {
        match self.top.take() {
            Some(node) => {
                let node = *node;
                proof {
                    assert(old(self)@.drop_last() =~= StackNode::chain(node.previous));
                }
                self.top = node.previous;
                Some(node.item)
            },
            None => None,
        }
    }

    pub fn is_empty(&self) -> (r: bool)
        ensures
            r == (self@.len() == 0),
    {
        self.top.is_none()
    }

    pub fn peek(&self) -> (r: Option<T>)
        ensures
            self@.len() == 0 ==> r is None,
            self@.len() > 0 ==> (r matches Some(v) && cloned::<T>(self@.last(), v)),
    {
        match &self.top {
            Some(node) => Some(node.item.clone()),
            None => None,
        }
    }
}

impl<T: NodeItemTraits> Default for Stack<T> {
    fn default() -> (s: Self)
        ensures
            s@ == Seq::<T>::empty(),
    {
        Self::new()
    }
}

} // verus!
