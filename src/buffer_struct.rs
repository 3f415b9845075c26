use vstd::prelude::*;

verus! {

/// What a `BufferStruct` holds, as plain values.
pub struct BufferView {
    /// The cells written so far; at most `size` of them.
    pub contents: Seq<u8>,
    /// The capacity.
    pub size: nat,
    /// The first write cursor.
    pub first: nat,
    /// The second write cursor.
    pub second: nat,
    /// Whether the first cursor is the active one.
    pub on_first: bool,
}

impl BufferView {
    /// The active cursor has run up against the other one.
    pub open spec fn hit(self) -> bool {
        if self.on_first {
            self.first % self.size + 1 == self.second
        } else {
            self.second % self.size + 1 == self.first
        }
    }

    /// Which cursor is active once the meeting check has been made.
    pub open spec fn next_on_first(self) -> bool {
        self.on_first != self.hit()
    }

    /// The cursor that the next overwrite goes through.
    pub open spec fn slot(self) -> nat {
        if self.next_on_first() {
            self.first
        } else {
            self.second
        }
    }
}

/// A circular buffer of bytes: it fills up to its capacity, then overwrites
/// cells through two cursors that take turns when they meet.
#[derive(Debug)]
pub struct BufferStruct {
    buff: Vec<u8>,
    buff_size: usize,
    index_1: usize,
    index_2: usize,
    current_index: i8,
}

impl View for BufferStruct {
    type V = BufferView;

    closed spec fn view(&self) -> BufferView {
        BufferView {
            contents: self.buff@,
            size: self.buff_size as nat,
            first: self.index_1 as nat,
            second: self.index_2 as nat,
            on_first: self.current_index != -1,
        }
    }
}

impl BufferStruct {
    /// The capacity is positive, the contents fit in it, both cursors point
    /// inside it, and the active-cursor flag is one of its two values.
    pub closed spec fn well_formed(&self) -> bool {
        &&& self.buff_size > 0
        &&& self.buff.len() <= self.buff_size
        &&& self.index_1 < self.buff_size
        &&& self.index_2 < self.buff_size
        &&& (self.current_index == 1 || self.current_index == -1)
    }

    /// An empty buffer of capacity `buff_size`, the first cursor at cell 0 and
    /// active, the second at the last cell.
    pub fn new(buff_size: usize) -> (b: Self)
        requires
            buff_size > 0,
        ensures
            b.well_formed(),
            b@ == (BufferView {
                contents: Seq::empty(),
                size: buff_size as nat,
                first: 0,
                second: (buff_size - 1) as nat,
                on_first: true,
            }),
    {
        let buff = Vec::<u8>::with_capacity(buff_size);
        Self { buff, buff_size, index_1: 0, index_2: buff_size - 1, current_index: 1 }
    }

    /// Checks whether the active cursor has met the other one (switching the
    /// active cursor if so) and lends out the cursor that is then active.
    pub fn get_index_pointer(&mut self) -> (r: &mut usize)
        requires
            old(self).well_formed(),
        ensures
            *r == old(self)@.slot(),
            final(self)@.contents == old(self)@.contents,
            final(self)@.size == old(self)@.size,
            final(self)@.on_first == old(self)@.next_on_first(),
            final(self)@.on_first ==> final(self)@.first == *final(r) && final(self)@.second
                == old(self)@.second,
            !final(self)@.on_first ==> final(self)@.second == *final(r) && final(self)@.first
                == old(self)@.first,
            final(self).well_formed() <==> *final(r) < old(self)@.size,
    {
        if self.current_index == -1 {
            if (self.index_2 % self.buff_size) + 1 == self.index_1 {
                self.current_index = 1;
                &mut self.index_1
            } else {
                &mut self.index_2
            }
        } else {
            if (self.index_1 % self.buff_size) + 1 == self.index_2 {
                self.current_index = -1;
                &mut self.index_2
            } else {
                &mut self.index_1
            }
        }
    }

    /// Appends `element` while there is room; once full, overwrites the cell
    /// under the active cursor and moves that cursor one cell on, wrapping.
    pub fn push_element(&mut self, element: u8)
        requires
            old(self).well_formed(),
        ensures
            final(self).well_formed(),
            final(self)@.size == old(self)@.size,
            old(self)@.contents.len() < old(self)@.size ==> final(self)@ == (BufferView {
                contents: old(self)@.contents.push(element),
                ..old(self)@
            }),
            old(self)@.contents.len() == old(self)@.size ==> {
                let v = old(self)@;
                let moved = ((v.slot() + 1) % v.size) as nat;
                &&& final(self)@.contents == v.contents.update(v.slot() as int, element)
                &&& final(self)@.on_first == v.next_on_first()
                &&& final(self)@.first == if v.next_on_first() {
                    moved
                } else {
                    v.first
                }
                &&& final(self)@.second == if v.next_on_first() {
                    v.second
                } else {
                    moved
                }
            },
    {
        if self.buff.len() < self.buff_size {
            self.buff.push(element);
        } else {
            let buff_size = self.buff_size;
            let index_ptr = self.get_index_pointer();
            let current_index_value = *index_ptr;
            *index_ptr = (*index_ptr + 1) % buff_size;
            self.buff.set(current_index_value, element);
        }
    }

    /// The cells written so far.
    pub fn contents(&self) -> (r: &Vec<u8>)
        ensures
            r@ == self@.contents,
    {
        &self.buff
    }
}

} // verus!
