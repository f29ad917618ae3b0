use vstd::prelude::*;

use crate::board::EMPTY;
use crate::text::push_char;

verus! {

/// Room for one cell per board position.
pub const HISTORY_SIZE: usize = 25;

/// A traced path: the visited cells, each as `row * 5 + column`, in order.
/// Only the first `length` entries belong to the path.
#[derive(Clone, Copy, Debug)]
pub struct History {
    pub length: u8,
    pub cells: [u8; HISTORY_SIZE],
}

impl View for History {
    type V = Seq<u8>;

    open spec fn view(&self) -> Seq<u8> {
        self.cells@.subrange(0, self.length as int)
    }
}

impl History {
    /// The length fits the storage.
    pub open spec fn wf(self) -> bool {
        self.length <= HISTORY_SIZE
    }

    pub fn new() -> (h: History)
        ensures
            h.wf(),
            h@ == Seq::<u8>::empty(),
            h.length == 0,
            forall|i: int| 0 <= i < HISTORY_SIZE ==> #[trigger] h.cells@[i] == 0,
    {
        History { length: 0, cells: [0; HISTORY_SIZE] }
    }

    /// Appends the cell `(row, column)`, stored as the byte `row * 5 + column`.
    pub fn append(&mut self, vec2d: (usize, usize))
        requires
            old(self).length < HISTORY_SIZE,
            vec2d.0 * 5 + vec2d.1 <= usize::MAX,
        ensures
            final(self).wf(),
            final(self).length == old(self).length + 1,
            final(self)@ == old(self)@.push((vec2d.0 * 5 + vec2d.1) as u8),
    {
        let vec = vec2d.0 * 5 + vec2d.1;
        let idx = self.length as usize;
        self.cells[idx] = vec as u8;
        self.length = self.length + 1;
        assert(self@ =~= old(self)@.push((vec2d.0 * 5 + vec2d.1) as u8));
    }

    /// Drops the last cell of the path.
    pub fn remove(&mut self)
        requires
            old(self).wf(),
            old(self).length > 0,
        ensures
            final(self).wf(),
            final(self).length == old(self).length - 1,
            final(self).cells == old(self).cells,
            final(self)@ == old(self)@.drop_last(),
    {
        self.length = self.length - 1;
        assert(self@ =~= old(self)@.drop_last());
    }

    /// The cells of the path in order, each as `(row, column)`.
    pub fn for_each(&self) -> (cells: Vec<(u8, u8)>)
        requires
            self.wf(),
        ensures
            cells@ == self@.map_values(|h: u8| ((h / 5) as u8, (h % 5) as u8)),
    {
        let mut out: Vec<(u8, u8)> = Vec::new();
        let mut i: u8 = 0;
        while i < self.length
            invariant
                self.wf(),
                i <= self.length,
                out@ == self@.subrange(0, i as int).map_values(|h: u8| ((h / 5) as u8, (h % 5) as u8)),
            decreases self.length - i,
        {
            let h = self.cells[i as usize];
            out.push((h / 5, h % 5));
            i = i + 1;
            assert(self@.subrange(0, i as int) =~= self@.subrange(0, i - 1).push(h));
        }
        assert(self@.subrange(0, self.length as int) =~= self@);
        out
    }

    /// Whether the cell `(row, column)`, as the byte `row * 5 + column`, is on the path.
    pub fn visited(&self, vec: (usize, usize)) -> (b: bool)
        requires
            self.wf(),
            vec.0 * 5 + vec.1 <= usize::MAX,
        ensures
            b == self@.contains((vec.0 * 5 + vec.1) as u8),
    {
        let v = (vec.0 * 5 + vec.1) as u8;
        let mut i: u8 = 0;
        while i < self.length
            invariant
                self.wf(),
                i <= self.length,
                v == (vec.0 * 5 + vec.1) as u8,
                forall|j: int| 0 <= j < i ==> self@[j] != v,
            decreases self.length - i,
        {
            if self.cells[i as usize] == v {
                assert(self@[i as int] == v);
                return true;
            }
            i = i + 1;
        }
        false
    }
}

/// The letters met along a traced path, in order.
#[derive(Clone, Copy, Debug)]
pub struct HistoryChar {
    pub length: u8,
    pub chars: [char; HISTORY_SIZE],
}

impl View for HistoryChar {
    type V = Seq<char>;

    open spec fn view(&self) -> Seq<char> {
        self.chars@.subrange(0, self.length as int)
    }
}

impl HistoryChar {
    pub open spec fn wf(self) -> bool {
        self.length <= HISTORY_SIZE
    }

    pub fn new() -> (h: HistoryChar)
        ensures
            h.wf(),
            h@ == Seq::<char>::empty(),
            h.length == 0,
            forall|i: int| 0 <= i < HISTORY_SIZE ==> #[trigger] h.chars@[i] == EMPTY,
    {
        HistoryChar { length: 0, chars: [EMPTY; HISTORY_SIZE] }
    }

    pub fn append(&mut self, chr: char)
        requires
            old(self).length < HISTORY_SIZE,
        ensures
            final(self).wf(),
            final(self).length == old(self).length + 1,
            final(self)@ == old(self)@.push(chr),
    {
        let idx = self.length as usize;
        self.chars[idx] = chr;
        self.length = self.length + 1;
        assert(self@ =~= old(self)@.push(chr));
    }

    pub fn remove(&mut self)
        requires
            old(self).wf(),
            old(self).length > 0,
        ensures
            final(self).wf(),
            final(self).length == old(self).length - 1,
            final(self)@ == old(self)@.drop_last(),
    {
        self.length = self.length - 1;
        assert(self@ =~= old(self)@.drop_last());
    }

    /// The letters in order.
    pub fn for_each(&self) -> (letters: Vec<char>)
        requires
            self.wf(),
        ensures
            letters@ == self@,
    {
        let mut out: Vec<char> = Vec::new();
        let mut i: u8 = 0;
        while i < self.length
            invariant
                self.wf(),
                i <= self.length,
                out@ == self@.subrange(0, i as int),
            decreases self.length - i,
        {
            out.push(self.chars[i as usize]);
            i = i + 1;
            assert(out@ =~= self@.subrange(0, i as int));
        }
        out
    }

    /// The letters as a string.
    pub fn to_string(&self) -> (s: String)
        requires
            self.wf(),
        ensures
            s@ == self@,
    {
        let mut s = String::new();
        let mut i: u8 = 0;
        while i < self.length
            invariant
                self.wf(),
                i <= self.length,
                s@ == self@.subrange(0, i as int),
            decreases self.length - i,
        {
            push_char(&mut s, self.chars[i as usize]);
            i = i + 1;
            assert(s@ =~= self@.subrange(0, i as int));
        }
        s
    }
}

} // verus!
