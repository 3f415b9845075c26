use vstd::prelude::*;

verus! {

/// Number of cells of a fixed circular slice.
pub const LEN: usize = 50;

/// Stores `item` in cell `index` of `buffer`.
pub fn write_on_buff_slice(buffer: &mut [i64; LEN], item: i64, index: usize)
    requires
        index < LEN,
    ensures
        final(buffer)@ == old(buffer)@.update(index as int, item),
{
    buffer[index] = item;
}

/// Whether the cursor one past `current_index` (in a slice of `LEN` cells) lands on `index_b`.
pub open spec fn change_spec(current_index: int, index_b: int) -> bool {
    current_index % (LEN as int) + 1 == index_b
}

/// Tells whether the cursor at `current_index` has run up against the cursor at `index_b`.
pub fn should_change_indexes(current_index: usize, index_b: usize) -> (r: bool)
    ensures
        r == change_spec(current_index as int, index_b as int),
{
    (current_index % LEN) + 1 == index_b
}

/// The state of a run over a slice: its cells, its two cursors and which cursor is active.
pub struct SliceRun {
    pub cells: Seq<i64>,
    pub first: int,
    pub second: int,
    pub on_first: bool,
}

/// The state after one item is written.
///
/// The active cursor is checked against the other one; where they meet, the
/// active role changes. The item goes to the second cursor when the check of
/// the active cursor succeeded, else to the first; the cursor written through
/// moves one cell forward, wrapping at `LEN`.
pub open spec fn run_step(s: SliceRun, item: i64) -> SliceRun {
    let hit = if s.on_first {
        change_spec(s.first, s.second)
    } else {
        change_spec(s.second, s.first)
    };
    let at = if hit {
        s.second
    } else {
        s.first
    };
    let moved = (at + 1) % (LEN as int);
    SliceRun {
        cells: s.cells.update(at, item),
        first: if hit {
            s.first
        } else {
            moved
        },
        second: if hit {
            moved
        } else {
            s.second
        },
        on_first: s.on_first != hit,
    }
}

/// The state after writing `items` in order, starting from `start`.
pub open spec fn run_items(start: SliceRun, items: Seq<i64>) -> SliceRun
    decreases items.len(),
{
    if items.len() == 0 {
        start
    } else {
        run_step(run_items(start, items.drop_last()), items.last())
    }
}

/// Writes `data` into `buffer` with two wrapping cursors that start at cell 0,
/// the first of them active.
pub fn run(buffer: &mut [i64; LEN], data: Vec<i64>)
    ensures
        final(buffer)@ == run_items(
            SliceRun { cells: old(buffer)@, first: 0, second: 0, on_first: true },
            data@,
        ).cells,
{
    let ghost start = SliceRun { cells: buffer@, first: 0, second: 0, on_first: true };
    let mut index_1: usize = 0;
    let mut index_2: usize = 0;
    let mut current_index: bool = true;
    let mut k: usize = 0;
    while k < data.len()
        invariant
            k <= data.len(),
            index_1 < LEN,
            index_2 < LEN,
            run_items(start, data@.subrange(0, k as int)) == (SliceRun {
                cells: buffer@,
                first: index_1 as int,
                second: index_2 as int,
                on_first: current_index,
            }),
        decreases data.len() - k,
    {
        let item = data[k];
        let hit = if current_index {
            should_change_indexes(index_1, index_2)
        } else {
            should_change_indexes(index_2, index_1)
        };
        if hit {
            current_index = !current_index;
            write_on_buff_slice(buffer, item, index_2);
            index_2 = (index_2 + 1) % LEN;
        } else {
            write_on_buff_slice(buffer, item, index_1);
            index_1 = (index_1 + 1) % LEN;
        }
        proof {
            assert(data@.subrange(0, k + 1).drop_last() =~= data@.subrange(0, k as int));
        }
        k = k + 1;
    }
    proof {
        assert(data@.subrange(0, k as int) =~= data@);
    }
}

} // verus!
