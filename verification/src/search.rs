use vstd::prelude::*;

use crate::board::{get_letter, letter_at, overflow_check, Table, TABLE_SIZE};
use crate::history::{History, HistoryChar};
use crate::text::push_char;
use crate::trie::{lemma_key_index, Trie};

verus! {

/// Two board positions (`row * 5 + column`) are distinct neighbours, diagonals included.
pub open spec fn adjacent(a: int, b: int) -> bool {
    &&& 0 <= a < 25
    &&& 0 <= b < 25
    &&& a != b
    &&& -1 <= a / 5 - b / 5 <= 1
    &&& -1 <= a % 5 - b % 5 <= 1
}

/// Step `i` of path `p` moves to a neighbour.
pub open spec fn linked(p: Seq<u8>, i: int) -> bool {
    adjacent(p[i] as int, p[i + 1] as int)
}

/// `p` lists board cells, none twice.
pub open spec fn distinct_cells(p: Seq<u8>) -> bool {
    &&& forall|i: int| 0 <= i < p.len() ==> #[trigger] p[i] < 25
    &&& forall|i: int, j: int| 0 <= i < j < p.len() ==> #[trigger] p[i] != #[trigger] p[j]
}

/// `p` is a path over the board that never visits a cell twice.
pub open spec fn is_trail(p: Seq<u8>) -> bool {
    &&& distinct_cells(p)
    &&& forall|i: int| 0 <= i < p.len() - 1 ==> #[trigger] linked(p, i)
}

/// The board letters along path `p`.
pub open spec fn letters(tbl: Table, p: Seq<u8>) -> Seq<char> {
    p.map_values(|c: u8| letter_at(tbl, c as int))
}

/// The number of positions at which `a` and `b` differ.
pub open spec fn diffs(a: Seq<char>, b: Seq<char>) -> nat
    decreases a.len(),
{
    if a.len() == 0 {
        0
    } else {
        diffs(a.drop_last(), b.drop_last()) + if a.last() != b.last() {
            1nat
        } else {
            0nat
        }
    }
}

/// What a find says: the path, the board letters along it, the word read
/// along it, and how many of the word's letters replace a board letter.
pub struct FoundView {
    pub path: Seq<u8>,
    pub board: Seq<char>,
    pub word: Seq<char>,
    pub swaps: nat,
}

/// A word found on the board.  `Word` is read straight off the board;
/// `Swapped` replaces `swaps` of the board letters (`board_word`) to spell `word`.
#[derive(Debug)]
pub enum Found {
    Word { history: History, letters: HistoryChar },
    Swapped { history: History, board_word: String, word: String, swaps: u8 },
}

impl View for Found {
    type V = FoundView;

    open spec fn view(&self) -> FoundView {
        match self {
            Found::Word { history, letters } => FoundView {
                path: history@,
                board: letters@,
                word: letters@,
                swaps: 0,
            },
            Found::Swapped { history, board_word, word, swaps } => FoundView {
                path: history@,
                board: board_word@,
                word: word@,
                swaps: *swaps as nat,
            },
        }
    }
}

/// A find's path (and letters) fit their storage, and a `Swapped` find
/// replaces at least one letter.
pub open spec fn marked(f: Found) -> bool {
    match f {
        Found::Swapped { history, swaps, .. } => history.wf() && swaps >= 1,
        Found::Word { history, letters } => history.wf() && letters.wf(),
    }
}

/// Every entry of `out` is `marked`.
pub open spec fn all_marked(out: Seq<Found>) -> bool {
    forall|i: int| 0 <= i < out.len() ==> #[trigger] marked(out[i])
}

/// The entries of `out` from position `start` on say different finds.
pub open spec fn distinct_from(out: Seq<Found>, start: int) -> bool {
    forall|i: int, j: int| start <= i < j < out.len() ==> #[trigger] out[i]@ != #[trigger] out[j]@
}

/// `b` starts with the entries of `a`.
pub open spec fn keeps_prefix(a: Seq<Found>, b: Seq<Found>) -> bool {
    a.len() <= b.len() && b.subrange(0, a.len() as int) == a
}

proof fn lemma_prefix_index(a: Seq<Found>, b: Seq<Found>, i: int)
    requires
        keeps_prefix(a, b),
        0 <= i < a.len(),
    ensures
        b[i] == a[i],
{
    assert(b.subrange(0, a.len() as int)[i] == b[i]);
}

proof fn lemma_prefix_trans(a: Seq<Found>, b: Seq<Found>, c: Seq<Found>)
    requires
        keeps_prefix(a, b),
        keeps_prefix(b, c),
    ensures
        keeps_prefix(a, c),
{
    assert(c.subrange(0, a.len() as int) =~= a) by {
        assert forall|i: int| 0 <= i < a.len() implies c.subrange(0, a.len() as int)[i] == a[i] by {
            lemma_prefix_index(b, c, i);
            lemma_prefix_index(a, b, i);
        }
    }
}

/// Some entry of `out` says `v`.
pub open spec fn listed(out: Seq<Found>, v: FoundView) -> bool {
    exists|i: int| 0 <= i < out.len() && #[trigger] out[i]@ == v
}

/// Cell `i` of `path` is a board cell not met before it, next to the cell
/// before it (if any).
pub open spec fn new_cell_ok(path: Seq<u8>, i: int) -> bool {
    &&& path[i] < 25
    &&& !path.take(i).contains(path[i])
    &&& i >= 1 ==> adjacent(path[i - 1] as int, path[i] as int)
}

/// Every cell of `path` from position `k` on is `new_cell_ok`.
pub open spec fn fresh_steps(path: Seq<u8>, k: int) -> bool {
    forall|i: int| k <= i < path.len() ==> #[trigger] new_cell_ok(path, i)
}

/// The letter that the find `v` takes at its cell `k`, where its word text
/// so far has length `j`: the board letter for a find without replaced
/// letters, else its word's letter.
pub open spec fn pick(tbl: Table, v: FoundView, k: int, j: int) -> char {
    if v.swaps == 0 {
        letter_at(tbl, v.path[k] as int)
    } else {
        v.word[j]
    }
}

/// `v` is a find that goes on from a walk that stands at the end of path `p`,
/// with letter history `c`, word text `r`, at node `n` of the tree, with `rem`
/// of `can_use` replacements left.  The find's path is `p` followed by new
/// neighbouring cells `t`, its board letters are `c` followed by the letters
/// along `t`.  Its word goes on from `n` to the end of a dictionary word with
/// one letter per cell of `t`; it counts the replacements spent before
/// (`can_use - rem`) and those along `t` (at most `rem`).  With none at all it
/// is a plain find, whose word is its board letters; otherwise its word is `r`
/// followed by the letters along `t`.
pub open spec fn continues(
    tbl: Table,
    trie: Trie,
    p: Seq<u8>,
    c: Seq<char>,
    r: Seq<char>,
    n: int,
    can_use: nat,
    rem: nat,
    v: FoundView,
) -> bool {
    let k = p.len() as int;
    let t = v.path.skip(k);
    &&& k <= v.path.len()
    &&& v.path.take(k) == p
    &&& fresh_steps(v.path, k)
    &&& v.board == c + letters(tbl, t)
    &&& if v.swaps == 0 {
        &&& rem == can_use
        &&& v.word == v.board
        &&& trie.ends_word(n, letters(tbl, t))
    } else {
        let j = r.len() as int;
        let u = v.word.skip(j);
        &&& v.word.len() == j + t.len()
        &&& v.word.take(j) == r
        &&& trie.ends_word(n, u)
        &&& diffs(u, letters(tbl, t)) <= rem
        &&& v.swaps == can_use - rem + diffs(u, letters(tbl, t))
    }
}

/// The find made where the walk stands, when a word ends at its node.
pub open spec fn here_find(p: Seq<u8>, c: Seq<char>, r: Seq<char>, can_use: nat, rem: nat) -> FoundView {
    if rem == can_use {
        FoundView { path: p, board: c, word: c, swaps: 0 }
    } else {
        FoundView { path: p, board: c, word: r, swaps: (can_use - rem) as nat }
    }
}

/// `v` is a find that starts on position `start`: a path over unvisited
/// neighbours, a dictionary word as long as the path, the board letters along
/// the path, and the number of letters that differ, at most `can_use`.
pub open spec fn is_find(tbl: Table, trie: Trie, start: int, can_use: nat, v: FoundView) -> bool {
    &&& v.path.len() > 0
    &&& v.path[0] == start
    &&& is_trail(v.path)
    &&& v.word.len() == v.path.len()
    &&& trie.contains_word(v.word)
    &&& v.board == letters(tbl, v.path)
    &&& v.swaps == diffs(v.word, v.board)
    &&& v.swaps <= can_use
}

/// Differences of two words that start with `x` and `y`.
proof fn lemma_diffs_cons(x: char, y: char, a: Seq<char>, b: Seq<char>)
    requires
        a.len() == b.len(),
    ensures
        diffs(seq![x] + a, seq![y] + b) == diffs(a, b) + if x != y {
            1nat
        } else {
            0nat
        },
    decreases a.len(),
{
    let sa = seq![x] + a;
    let sb = seq![y] + b;
    if a.len() == 0 {
        assert(sa.drop_last() =~= Seq::<char>::empty());
        assert(sb.drop_last() =~= Seq::<char>::empty());
        assert(sa.last() == x && sb.last() == y);
        assert(diffs(a, b) == 0);
        assert(diffs(sa.drop_last(), sb.drop_last()) == 0);
    } else {
        lemma_diffs_cons(x, y, a.drop_last(), b.drop_last());
        assert(sa.drop_last() =~= seq![x] + a.drop_last());
        assert(sb.drop_last() =~= seq![y] + b.drop_last());
        assert(sa.last() == a.last() && sb.last() == b.last());
    }
}

/// Following `ch` and then `u` from `n`.
proof fn lemma_ends_word_cons(trie: Trie, n: int, ch: char, u: Seq<char>)
    ensures
        trie.ends_word(n, seq![ch] + u) == (trie.has_key(n, ch) && trie.ends_word(trie.child(n, ch), u)),
{
    let s = seq![ch] + u;
    assert(s[0] == ch);
    assert(s.drop_first() =~= u);
}

/// The letters along a path from cell `k` on: the letter at `k`, then the rest.
proof fn lemma_letters_skip(tbl: Table, path: Seq<u8>, k: int)
    requires
        0 <= k < path.len(),
    ensures
        letters(tbl, path.skip(k)) == seq![letter_at(tbl, path[k] as int)] + letters(tbl, path.skip(k + 1)),
{
    assert(letters(tbl, path.skip(k)) =~= seq![letter_at(tbl, path[k] as int)] + letters(
        tbl,
        path.skip(k + 1),
    ));
}

/// Taking one more step: the walk moves to cell `e` and takes letter `ch`
/// there (spending a replacement when `ch` is not the board letter).  The
/// finds that go on from there are those that go on from here through `e`
/// and take `ch` at it.
proof fn lemma_step(
    tbl: Table,
    trie: Trie,
    p: Seq<u8>,
    c: Seq<char>,
    r: Seq<char>,
    n: int,
    can_use: nat,
    rem: nat,
    e: u8,
    ch: char,
    v: FoundView,
)
    requires
        trie.wf(),
        0 <= n < trie.nodes@.len(),
        trie.has_key(n, ch),
        c.len() == p.len(),
        rem <= can_use,
        ch == letter_at(tbl, e as int) || rem >= 1,
        e < 25,
        !p.contains(e),
        p.len() > 0 ==> adjacent(p.last() as int, e as int),
    ensures
        continues(
            tbl,
            trie,
            p.push(e),
            c.push(letter_at(tbl, e as int)),
            r.push(ch),
            trie.child(n, ch),
            can_use,
            if ch == letter_at(tbl, e as int) {
                rem
            } else {
                (rem - 1) as nat
            },
            v,
        ) <==> (continues(tbl, trie, p, c, r, n, can_use, rem, v) && v.path.len() > p.len()
            && v.path[p.len() as int] == e && pick(tbl, v, p.len() as int, r.len() as int) == ch),
{
    let k = p.len() as int;
    let j = r.len() as int;
    let le = letter_at(tbl, e as int);
    let rem2: nat = if ch == le {
        rem
    } else {
        (rem - 1) as nat
    };
    let inner = continues(tbl, trie, p.push(e), c.push(le), r.push(ch), trie.child(n, ch), can_use, rem2, v);
    let outer = continues(tbl, trie, p, c, r, n, can_use, rem, v) && v.path.len() > k && v.path[k] == e
        && pick(tbl, v, k, j) == ch;
    if v.path.len() > k && v.path.take(k) == p && v.path[k] == e {
        assert(v.path.take(k + 1) =~= p.push(e));
        lemma_letters_skip(tbl, v.path, k);
        let t1 = v.path.skip(k + 1);
        let lt1 = letters(tbl, t1);
        assert(c + letters(tbl, v.path.skip(k)) =~= c.push(le) + lt1);
        assert(new_cell_ok(v.path, k)) by {
            assert(v.path.take(k) == p);
            if k >= 1 {
                assert(v.path[k - 1] == p.last());
            }
        }
        assert(fresh_steps(v.path, k) <==> fresh_steps(v.path, k + 1));
        if v.swaps == 0 {
            lemma_ends_word_cons(trie, n, le, lt1);
        } else if v.word.len() == j + 1 + t1.len() {
            let u1 = v.word.skip(j + 1);
            assert(v.word.skip(j) =~= seq![v.word[j]] + u1);
            assert(v.word.take(j + 1) =~= v.word.take(j).push(v.word[j]));
            lemma_ends_word_cons(trie, n, v.word[j], u1);
            lemma_diffs_cons(v.word[j], le, u1, lt1);
            if inner {
                assert(v.word.take(j + 1)[j] == ch);
                assert(v.word.take(j) =~= v.word.take(j + 1).drop_last());
                assert(r.push(ch).drop_last() =~= r);
            }
        }
    } else if inner {
        assert(v.path.take(k + 1)[k] == e);
        assert(v.path.take(k) =~= v.path.take(k + 1).drop_last());
        assert(p.push(e).drop_last() =~= p);
    }
}

/// The `k`-th of the eight moves to a neighbour, as (row change, column change).
pub open spec fn move_delta(k: int) -> (int, int) {
    if k == 0 {
        (-1, -1)
    } else if k == 1 {
        (-1, 0)
    } else if k == 2 {
        (-1, 1)
    } else if k == 3 {
        (0, -1)
    } else if k == 4 {
        (0, 1)
    } else if k == 5 {
        (1, -1)
    } else if k == 6 {
        (1, 0)
    } else {
        (1, 1)
    }
}

/// The number of the move that leads from position `a` to position `b`.
pub open spec fn move_of(a: int, b: int) -> int {
    let raw = 3 * (b / 5 - a / 5 + 1) + (b % 5 - a % 5 + 1);
    if raw > 4 {
        raw - 1
    } else {
        raw
    }
}

/// The eight moves to a neighbour, in the order they are tried.
pub fn move_at(k: usize) -> (m: (i32, i32))
    requires
        k < 8,
    ensures
        m.0 == move_delta(k as int).0,
        m.1 == move_delta(k as int).1,
{
    if k == 0 {
        (-1, -1)
    } else if k == 1 {
        (-1, 0)
    } else if k == 2 {
        (-1, 1)
    } else if k == 3 {
        (0, -1)
    } else if k == 4 {
        (0, 1)
    } else if k == 5 {
        (1, -1)
    } else if k == 6 {
        (1, 0)
    } else {
        (1, 1)
    }
}

proof fn lemma_pos(x: int, y: int)
    requires
        0 <= x < 5,
        0 <= y < 5,
    ensures
        (x * 5 + y) / 5 == x,
        (x * 5 + y) % 5 == y,
        0 <= x * 5 + y < 25,
{
}

/// Move `mi` from `(x, y)` reaches `b` exactly when it stays on the board and lands on `b`.
proof fn lemma_move(x: int, y: int, mi: int, b: int)
    requires
        0 <= x < 5,
        0 <= y < 5,
        0 <= mi < 8,
    ensures
        (adjacent(x * 5 + y, b) && move_of(x * 5 + y, b) == mi) <==> ({
            let nx = x + move_delta(mi).0;
            let ny = y + move_delta(mi).1;
            0 <= nx < 5 && 0 <= ny < 5 && b == nx * 5 + ny
        }),
{
    lemma_pos(x, y);
    let nx = x + move_delta(mi).0;
    let ny = y + move_delta(mi).1;
    if 0 <= nx < 5 && 0 <= ny < 5 && b == nx * 5 + ny {
        lemma_pos(nx, ny);
    }
    if adjacent(x * 5 + y, b) {
        let bx = b / 5;
        let by = b % 5;
        lemma_pos(bx, by);
        assert(b == bx * 5 + by);
    }
}

/// Every neighbour is reached by one of the eight moves.
proof fn lemma_move_range(a: int, b: int)
    requires
        adjacent(a, b),
    ensures
        0 <= move_of(a, b) < 8,
{
}

/// A list of board cells without repeats has at most 25 cells.
pub proof fn lemma_trail_len(p: Seq<u8>)
    requires
        distinct_cells(p),
    ensures
        p.len() <= 25,
{
    let q = p.map_values(|c: u8| c as int);
    assert forall|i: int, j: int| 0 <= i < q.len() && 0 <= j < q.len() && i != j implies q[i] != q[j] by {
        if i < j {
            assert(p[i] != p[j]);
        } else {
            assert(p[j] != p[i]);
        }
    }
    assert(q.no_duplicates());
    q.unique_seq_to_set();
    vstd::set_lib::lemma_int_range(0, 25);
    assert forall|x: int| q.to_set().contains(x) implies vstd::set_lib::set_int_range(0, 25).contains(x) by {
        let i = choose|i: int| 0 <= i < q.len() && q[i] == x;
        assert(p[i] < 25);
    }
    vstd::set_lib::lemma_len_subset(q.to_set(), vstd::set_lib::set_int_range(0, 25));
}

proof fn lemma_diffs_zero(a: Seq<char>, b: Seq<char>)
    requires
        a.len() == b.len(),
    ensures
        diffs(a, b) == 0 <==> a == b,
    decreases a.len(),
{
    if a.len() > 0 {
        lemma_diffs_zero(a.drop_last(), b.drop_last());
        if a.drop_last() == b.drop_last() && a.last() == b.last() {
            assert(a =~= b.drop_last().push(b.last()));
            assert(b =~= b.drop_last().push(b.last()));
        }
    } else {
        assert(a =~= b);
    }
}

/// The finds that go on from where the walk stands, with no cell added: the
/// one made there, when a word ends at the node.
proof fn lemma_here(
    tbl: Table,
    trie: Trie,
    p: Seq<u8>,
    c: Seq<char>,
    r: Seq<char>,
    n: int,
    can_use: nat,
    rem: nat,
    v: FoundView,
)
    requires
        c.len() == p.len(),
        rem <= can_use,
    ensures
        (continues(tbl, trie, p, c, r, n, can_use, rem, v) && v.path.len() == p.len()) <==> (trie.is_end(n)
            && v == here_find(p, c, r, can_use, rem)),
{
    let k = p.len() as int;
    let j = r.len() as int;
    if v.path.len() == k {
        assert(v.path.skip(k) =~= Seq::<u8>::empty());
        assert(letters(tbl, v.path.skip(k)) =~= Seq::<char>::empty());
        assert(c + letters(tbl, v.path.skip(k)) =~= c);
        assert(v.path.take(k) =~= v.path);
        if v.word.len() == j {
            assert(v.word.skip(j) =~= Seq::<char>::empty());
            assert(v.word.take(j) =~= v.word);
        }
    }
    let h = here_find(p, c, r, can_use, rem);
    if trie.is_end(n) && v == h {
        assert(p.skip(k) =~= Seq::<u8>::empty());
        assert(letters(tbl, p.skip(k)) =~= Seq::<char>::empty());
        assert(p.take(k) =~= p);
        assert(r.skip(j) =~= Seq::<char>::empty());
        assert(r.take(j) =~= r);
        assert(c + Seq::<char>::empty() =~= c);
    }
}

/// What a find that goes on through cell `e` needs of the tree and of the
/// replacements left.
proof fn lemma_next(
    tbl: Table,
    trie: Trie,
    p: Seq<u8>,
    c: Seq<char>,
    r: Seq<char>,
    n: int,
    can_use: nat,
    rem: nat,
    e: u8,
    v: FoundView,
)
    requires
        continues(tbl, trie, p, c, r, n, can_use, rem, v),
        v.path.len() > p.len(),
        v.path[p.len() as int] == e,
    ensures
        trie.has_key(n, pick(tbl, v, p.len() as int, r.len() as int)),
        pick(tbl, v, p.len() as int, r.len() as int) != letter_at(tbl, e as int) ==> rem >= 1,
{
    let k = p.len() as int;
    let j = r.len() as int;
    lemma_letters_skip(tbl, v.path, k);
    let lt1 = letters(tbl, v.path.skip(k + 1));
    if v.swaps == 0 {
        lemma_ends_word_cons(trie, n, letter_at(tbl, e as int), lt1);
    } else {
        let u1 = v.word.skip(j + 1);
        assert(v.word.skip(j) =~= seq![v.word[j]] + u1);
        lemma_ends_word_cons(trie, n, v.word[j], u1);
        lemma_diffs_cons(v.word[j], letter_at(tbl, e as int), u1, lt1);
    }
}

/// A path is a trail exactly when each of its cells is new and next to the one before.
proof fn lemma_trail_steps(path: Seq<u8>)
    ensures
        is_trail(path) <==> fresh_steps(path, 0),
{
    if is_trail(path) {
        assert forall|i: int| 0 <= i < path.len() implies #[trigger] new_cell_ok(path, i) by {
            if path.take(i).contains(path[i]) {
                let q = choose|q: int| 0 <= q < path.take(i).len() && path.take(i)[q] == path[i];
                assert(path[q] != path[i]);
            }
            if i >= 1 {
                assert(linked(path, i - 1));
            }
        }
    }
    if fresh_steps(path, 0) {
        assert forall|i: int, j: int| 0 <= i < j < path.len() implies #[trigger] path[i] != #[trigger] path[j] by {
            assert(new_cell_ok(path, j));
            assert(path.take(j)[i] == path[i]);
        }
        assert forall|i: int| 0 <= i < path.len() - 1 implies #[trigger] linked(path, i) by {
            assert(new_cell_ok(path, i + 1));
        }
        assert forall|i: int| 0 <= i < path.len() implies #[trigger] path[i] < 25 by {
            assert(new_cell_ok(path, i));
        }
    }
}

/// A find goes on from the empty walk at the root, starting on `start`,
/// exactly when it is a find that starts on `start`.
proof fn lemma_start(tbl: Table, trie: Trie, start: int, can_use: nat, v: FoundView)
    ensures
        (continues(
            tbl,
            trie,
            Seq::<u8>::empty(),
            Seq::<char>::empty(),
            Seq::<char>::empty(),
            0,
            can_use,
            can_use,
            v,
        ) && v.path.len() > 0 && v.path[0] == start) <==> is_find(tbl, trie, start, can_use, v),
{
    lemma_trail_steps(v.path);
    assert(v.path.take(0) =~= Seq::<u8>::empty());
    assert(v.path.skip(0) =~= v.path);
    assert(v.word.take(0) =~= Seq::<char>::empty());
    assert(v.word.skip(0) =~= v.word);
    assert(Seq::<char>::empty() + letters(tbl, v.path) =~= letters(tbl, v.path));
    if v.word.len() == v.path.len() {
        lemma_diffs_zero(v.word, letters(tbl, v.path));
    }
}

/// All finds that start on `(x, y)`, each once: the work one board cell
/// needs.  `None` when the tree has no word that starts with the letter there.
pub fn find_from(x: usize, y: usize, tbl: Table, trie: &Trie, can_use_swap: u8) -> (res: Option<
    Vec<Found>,
>)
    requires
        x < TABLE_SIZE,
        y < TABLE_SIZE,
        trie.wf(),
    ensures
        res is Some <==> trie.has_key(0, letter_at(tbl, x * 5 + y)),
        res matches Some(out) ==> all_marked(out@),
        res matches Some(out) ==> distinct_from(out@, 0),
        res matches Some(out) ==> forall|v: FoundView|
            #![trigger listed(out@, v)]
            listed(out@, v) <==> is_find(tbl, *trie, x * 5 + y, can_use_swap as nat, v),
{
    let key = get_letter(&tbl, x, y);
    match trie.get_child(0, key) {
        None => None,
        Some(_) => {
            let mut history_ = History::new();
            let mut history_char = HistoryChar::new();
            let mut out: Vec<Found> = Vec::new();
            let empty = String::new();
            proof {
                lemma_pos(x as int, y as int);
                assert(history_@.push((x * 5 + y) as u8) == seq![(x * 5 + y) as u8]);
                assert(distinct_cells(seq![(x * 5 + y) as u8]));
            }
            branch(
                (x, y),
                &mut history_,
                &mut history_char,
                tbl,
                trie,
                0,
                &mut out,
                can_use_swap,
                can_use_swap,
                &empty,
            );
            proof {
                assert forall|v: FoundView|
                    #![trigger listed(out@, v)]
                    listed(out@, v) <==> is_find(tbl, *trie, x * 5 + y, can_use_swap as nat, v) by {
                    lemma_start(tbl, *trie, x * 5 + y, can_use_swap as nat, v);
                    assert(listed(Seq::<Found>::empty(), v) == false);
                }
            }
            Some(out)
        },
    }
}

proof fn lemma_distinct_push(p: Seq<u8>, e: u8)
    requires
        distinct_cells(p),
        e < 25,
        !p.contains(e),
    ensures
        distinct_cells(p.push(e)),
{
    let q = p.push(e);
    assert forall|i: int, j: int| 0 <= i < j < q.len() implies #[trigger] q[i] != #[trigger] q[j] by {
        if j == p.len() {
            assert(p[i] != e);
        } else {
            assert(p[i] != p[j]);
        }
    }
}

proof fn lemma_listed_push(out: Seq<Found>, f: Found, v: FoundView)
    ensures
        listed(out.push(f), v) <==> (listed(out, v) || f@ == v),
{
    if listed(out, v) {
        let i = choose|i: int| 0 <= i < out.len() && #[trigger] out[i]@ == v;
        assert(out.push(f)[i]@ == v);
    }
    if f@ == v {
        assert(out.push(f)[out.len() as int]@ == v);
    }
    if listed(out.push(f), v) {
        let i = choose|i: int| 0 <= i < out.push(f).len() && #[trigger] out.push(f)[i]@ == v;
        if i < out.len() {
            assert(out[i]@ == v);
        }
    }
}

/// The board walk: records the cell `visit_index` (and its board letter) on
/// the path, reports a find when the tree says a word ends at `node`, then
/// tries every unvisited neighbour.  At each neighbour it follows the tree by
/// the board letter and, while `remain_swap` allows, by every other letter the
/// tree offers there, spending one replacement.
///
/// The walk goes on from whatever path, letter history and word text it is
/// given: every find that `continues` them through `visit_index` is appended
/// to `out` once, and nothing else.  A find is `Word` when no replacement was
/// spent, before the call or in it; `Swapped` otherwise, with the
/// replacements spent before the call (`can_use_swap - remain_swap`) counted.
pub fn search(
    visit_index: (usize, usize),
    history_: &mut History,
    history_char: &mut HistoryChar,
    tbl: Table,
    trie: &Trie,
    node: usize,
    out: &mut Vec<Found>,
    can_use_swap: u8,
    remain_swap: u8,
    result_string: &mut String,
)
    requires
        visit_index.0 < TABLE_SIZE,
        visit_index.1 < TABLE_SIZE,
        old(history_).wf(),
        old(history_char).wf(),
        old(history_char)@.len() == old(history_)@.len(),
        distinct_cells(old(history_)@.push((visit_index.0 * 5 + visit_index.1) as u8)),
        trie.wf(),
        node < trie.nodes@.len(),
        remain_swap <= can_use_swap,
    ensures
        final(history_).wf(),
        final(history_)@ == old(history_)@,
        final(history_char).wf(),
        final(history_char)@ == old(history_char)@,
        final(result_string)@ == old(result_string)@,
        all_marked(old(out)@) ==> all_marked(final(out)@),
        keeps_prefix(old(out)@, final(out)@),
        distinct_from(final(out)@, old(out)@.len() as int),
        forall|i: int|
            old(out)@.len() <= i < final(out)@.len() ==> continues(
                tbl,
                *trie,
                old(history_)@.push((visit_index.0 * 5 + visit_index.1) as u8),
                old(history_char)@.push(letter_at(tbl, visit_index.0 * 5 + visit_index.1)),
                old(result_string)@,
                node as int,
                can_use_swap as nat,
                remain_swap as nat,
                #[trigger] final(out)@[i]@,
            ),
        forall|v: FoundView|
            #![trigger listed(final(out)@, v)]
            listed(final(out)@, v) <==> (listed(old(out)@, v) || continues(
                tbl,
                *trie,
                old(history_)@.push((visit_index.0 * 5 + visit_index.1) as u8),
                old(history_char)@.push(letter_at(tbl, visit_index.0 * 5 + visit_index.1)),
                old(result_string)@,
                node as int,
                can_use_swap as nat,
                remain_swap as nat,
                v,
            )),
    decreases 25 - old(history_)@.len(), 0int,
{
    let ghost p = history_@;
    let ghost pos = (visit_index.0 * 5 + visit_index.1) as u8;
    let ghost pp = p.push(pos);
    let ghost cc = history_char@.push(letter_at(tbl, visit_index.0 * 5 + visit_index.1));
    let ghost r = result_string@;
    let ghost out0 = out@;
    let ghost k = pp.len() as int;
    let ghost cu = can_use_swap as nat;
    let ghost rem = remain_swap as nat;
    proof {
        lemma_trail_len(pp);
        lemma_pos(visit_index.0 as int, visit_index.1 as int);
    }
    history_.append(visit_index);
    let c = get_letter(&tbl, visit_index.0, visit_index.1);
    history_char.append(c);
    let english_word = history_char.to_string();
    if trie.has_word_end(node) {
        if remain_swap == can_use_swap {
            out.push(Found::Word { history: *history_, letters: *history_char });
        } else {
            let word = result_string.clone();
            out.push(
                Found::Swapped {
                    history: *history_,
                    board_word: english_word,
                    word,
                    swaps: can_use_swap - remain_swap,
                },
            );
        }
    }
    proof {
        assert(out@.subrange(0, out0.len() as int) =~= out0);
        if out@.len() > out0.len() {
            assert(out@.last()@ == here_find(pp, cc, r, cu, rem));
        }
        if all_marked(out0) {
            assert forall|j: int| 0 <= j < out@.len() implies #[trigger] marked(out@[j]) by {
                if j < out0.len() {
                    assert(out@[j] == out0[j]);
                }
            }
        }
        assert forall|v: FoundView|
            #![trigger listed(out@, v)]
            listed(out@, v) <==> (listed(out0, v) || (continues(tbl, *trie, pp, cc, r, node as int, cu, rem, v)
                && v.path.len() == k)) by {
            lemma_here(tbl, *trie, pp, cc, r, node as int, cu, rem, v);
            if out@.len() > out0.len() {
                assert(out@ == out0.push(out@.last()));
                lemma_listed_push(out0, out@.last(), v);
            }
        }
        if out@.len() > out0.len() {
            lemma_here(tbl, *trie, pp, cc, r, node as int, cu, rem, out@[out0.len() as int]@);
        }
    }
    proof {
        assert forall|v: FoundView|
            continues(tbl, *trie, pp, cc, r, node as int, cu, rem, v) && v.path.len()
                > k implies 0 <= #[trigger] move_of(pos as int, v.path[k] as int) < 8 by {
            assert(new_cell_ok(v.path, k));
            assert(v.path.take(k)[k - 1] == pos);
            lemma_move_range(pos as int, v.path[k] as int);
        }
    }
    let mut mi: usize = 0;
    while mi < 8
        invariant
            0 <= mi <= 8,
            visit_index.0 < TABLE_SIZE,
            visit_index.1 < TABLE_SIZE,
            pos == visit_index.0 * 5 + visit_index.1,
            p == old(history_)@,
            pp == p.push(pos),
            k == pp.len(),
            cu == can_use_swap,
            rem == remain_swap,
            forall|v: FoundView|
                continues(tbl, *trie, pp, cc, r, node as int, cu, rem, v) && v.path.len() > k
                    ==> 0 <= #[trigger] move_of(pos as int, v.path[k] as int) < 8,
            1 <= k <= 25,
            distinct_cells(pp),
            history_.wf(),
            history_@ == pp,
            history_char.wf(),
            history_char@ == cc,
            cc.len() == k,
            result_string@ == r,
            trie.wf(),
            node < trie.nodes@.len(),
            remain_swap <= can_use_swap,
            all_marked(out0) ==> all_marked(out@),
            keeps_prefix(out0, out@),
            distinct_from(out@, out0.len() as int),
            forall|i: int|
                out0.len() <= i < out@.len() ==> continues(
                    tbl,
                    *trie,
                    pp,
                    cc,
                    r,
                    node as int,
                    cu,
                    rem,
                    #[trigger] out@[i]@,
                ) && (out@[i]@.path.len() == k || move_of(pos as int, out@[i]@.path[k] as int) < mi),
            forall|v: FoundView|
                #![trigger listed(out@, v)]
                listed(out@, v) <==> (listed(out0, v) || (continues(
                    tbl,
                    *trie,
                    pp,
                    cc,
                    r,
                    node as int,
                    cu,
                    rem,
                    v,
                ) && (v.path.len() == k || move_of(pos as int, v.path[k] as int) < mi))),
        decreases 8 - mi,
    {
        let ghost out1 = out@;
        let mov = move_at(mi);
        let nx = visit_index.0 as isize + mov.0 as isize;
        let ny = visit_index.1 as isize + mov.1 as isize;
        let on_board = overflow_check((nx, ny)).is_ok();
        let mut seen = false;
        if on_board {
            let next_index = (nx as usize, ny as usize);
            seen = history_.visited(next_index);
            if !seen {
                proof {
                    let e = (next_index.0 * 5 + next_index.1) as u8;
                    lemma_move(visit_index.0 as int, visit_index.1 as int, mi as int, (next_index.0 * 5
                        + next_index.1) as int);
                    lemma_pos(next_index.0 as int, next_index.1 as int);
                    assert(pp.last() == pos);
                    lemma_distinct_push(pp, e);
                }
                branch(
                    next_index,
                    history_,
                    history_char,
                    tbl,
                    trie,
                    node,
                    out,
                    can_use_swap,
                    remain_swap,
                    result_string,
                );
            }
        }
        proof {
            let tx = visit_index.0 as int + move_delta(mi as int).0;
            let ty = visit_index.1 as int + move_delta(mi as int).1;
            assert(on_board <==> (0 <= tx < 5 && 0 <= ty < 5));
            let t = tx * 5 + ty;
            assert forall|v: FoundView|
                continues(tbl, *trie, pp, cc, r, node as int, cu, rem, v) && v.path.len()
                    > k implies ((move_of(pos as int, v.path[k] as int) == mi) <==> (on_board
                    && v.path[k] == t)) by {
                assert(new_cell_ok(v.path, k));
                assert(v.path.take(k)[k - 1] == pos);
                lemma_move(visit_index.0 as int, visit_index.1 as int, mi as int, v.path[k] as int);
            }
            if on_board {
                lemma_pos(tx, ty);
                assert(t == (nx as usize * 5 + ny as usize) as u8);
            }
            if on_board && seen {
                assert(pp.contains(t as u8));
                assert forall|v: FoundView|
                    continues(tbl, *trie, pp, cc, r, node as int, cu, rem, v)
                        && v.path.len() > k implies v.path[k] != t by {
                    assert(new_cell_ok(v.path, k));
                }
            }
            if !on_board || seen {
                assert(out@ == out1);
            }
            assert forall|v: FoundView|
                #![trigger listed(out@, v)]
                listed(out@, v) <==> (listed(out0, v) || (continues(
                    tbl,
                    *trie,
                    pp,
                    cc,
                    r,
                    node as int,
                    cu,
                    rem,
                    v,
                ) && (v.path.len() == k || move_of(pos as int, v.path[k] as int) < mi + 1))) by {
                let cv = continues(tbl, *trie, pp, cc, r, node as int, cu, rem, v);
                if cv && v.path.len() > k {
                    assert((move_of(pos as int, v.path[k] as int) == mi) <==> (on_board && v.path[k]
                        == t));
                }
                assert(listed(out1, v) <==> (listed(out0, v) || (cv && (v.path.len() == k || move_of(
                    pos as int,
                    v.path[k] as int,
                ) < mi))));
                if on_board && !seen {
                    assert(listed(out@, v) <==> (listed(out1, v) || (cv && v.path.len() > k && v.path[k]
                        == t)));
                } else {
                    assert(listed(out@, v) <==> listed(out1, v));
                }
            }
            if !on_board || seen {
                assert(out@.subrange(0, out1.len() as int) =~= out1);
            }
            lemma_prefix_trans(out0, out1, out@);
            assert forall|i: int| out0.len() <= i < out@.len() implies continues(
                tbl,
                *trie,
                pp,
                cc,
                r,
                node as int,
                cu,
                rem,
                #[trigger] out@[i]@,
            ) && (out@[i]@.path.len() == k || move_of(pos as int, out@[i]@.path[k] as int) < mi + 1) by {
                if i < out1.len() {
                    lemma_prefix_index(out1, out@, i);
                } else {
                    let v = out@[i]@;
                    assert((move_of(pos as int, v.path[k] as int) == mi) <==> (on_board && v.path[k]
                        == t));
                }
            }
            assert forall|i: int, j: int| out0.len() <= i < j < out@.len() implies #[trigger] out@[i]@
                != #[trigger] out@[j]@ by {
                if j < out1.len() {
                    lemma_prefix_index(out1, out@, i);
                    lemma_prefix_index(out1, out@, j);
                } else if i < out1.len() {
                    lemma_prefix_index(out1, out@, i);
                    let v = out@[j]@;
                    assert((move_of(pos as int, v.path[k] as int) == mi) <==> (on_board && v.path[k]
                        == t));
                }
            }
        }
        mi = mi + 1;
    }
    history_.remove();
    history_char.remove();
    proof {
        assert(pp.drop_last() =~= p);
        assert(cc.drop_last() =~= old(history_char)@);
    }
}

/// The neighbour `next_index` of the walk: follows the tree from `node` by
/// the board letter there and, while `remain_swap` allows, by each other
/// letter the tree offers, spending one replacement.
fn branch(
    next_index: (usize, usize),
    history_: &mut History,
    history_char: &mut HistoryChar,
    tbl: Table,
    trie: &Trie,
    node: usize,
    out: &mut Vec<Found>,
    can_use_swap: u8,
    remain_swap: u8,
    result_string: &String,
)
    requires
        next_index.0 < TABLE_SIZE,
        next_index.1 < TABLE_SIZE,
        old(history_).wf(),
        old(history_char).wf(),
        old(history_char)@.len() == old(history_)@.len(),
        distinct_cells(old(history_)@.push((next_index.0 * 5 + next_index.1) as u8)),
        old(history_)@.len() > 0 ==> adjacent(
            old(history_)@.last() as int,
            (next_index.0 * 5 + next_index.1) as int,
        ),
        trie.wf(),
        node < trie.nodes@.len(),
        remain_swap <= can_use_swap,
    ensures
        final(history_).wf(),
        final(history_)@ == old(history_)@,
        final(history_char).wf(),
        final(history_char)@ == old(history_char)@,
        all_marked(old(out)@) ==> all_marked(final(out)@),
        keeps_prefix(old(out)@, final(out)@),
        distinct_from(final(out)@, old(out)@.len() as int),
        forall|i: int|
            old(out)@.len() <= i < final(out)@.len() ==> continues(
                tbl,
                *trie,
                old(history_)@,
                old(history_char)@,
                result_string@,
                node as int,
                can_use_swap as nat,
                remain_swap as nat,
                #[trigger] final(out)@[i]@,
            ) && final(out)@[i]@.path.len() > old(history_)@.len() && final(out)@[i]@.path[old(
                history_,
            )@.len() as int] == (next_index.0 * 5 + next_index.1) as u8,
        forall|v: FoundView|
            #![trigger listed(final(out)@, v)]
            listed(final(out)@, v) <==> (listed(old(out)@, v) || (continues(
                tbl,
                *trie,
                old(history_)@,
                old(history_char)@,
                result_string@,
                node as int,
                can_use_swap as nat,
                remain_swap as nat,
                v,
            ) && v.path.len() > old(history_)@.len() && v.path[old(history_)@.len() as int] == (
            next_index.0 * 5 + next_index.1) as u8)),
    decreases 25 - old(history_)@.len(), 1int,
{
    let ghost p = history_@;
    let ghost c = history_char@;
    let ghost k = p.len() as int;
    let ghost j0 = result_string@.len() as int;
    let ghost e = (next_index.0 * 5 + next_index.1) as u8;
    let ghost r = result_string@;
    let ghost out0 = out@;
    let ghost n = node as int;
    let ghost cu = can_use_swap as nat;
    let ghost rem = remain_swap as nat;
    proof {
        lemma_trail_len(p.push(e));
        lemma_pos(next_index.0 as int, next_index.1 as int);
        assert(p.push(e)[k] == e);
        assert forall|i: int| 0 <= i < k implies p[i] != e by {
            assert(p.push(e)[i] == p[i]);
        }
        assert(!p.contains(e));
    }
    let next_char = get_letter(&tbl, next_index.0, next_index.1);
    let mut result_string_ = result_string.clone();
    push_char(&mut result_string_, next_char);
    match trie.get_child(node, next_char) {
        Some(child) => {
            search(
                next_index,
                history_,
                history_char,
                tbl,
                trie,
                child,
                out,
                can_use_swap,
                remain_swap,
                &mut result_string_,
            );
        },
        None => {},
    }
    proof {
        assert forall|v: FoundView|
            #![trigger listed(out@, v)]
            listed(out@, v) <==> (listed(out0, v) || (continues(tbl, *trie, p, c, r, n, cu, rem, v)
                && v.path.len() > k && v.path[k] == e && pick(tbl, v, k, j0) == next_char)) by {
            if trie.has_key(n, next_char) {
                lemma_step(tbl, *trie, p, c, r, n, cu, rem, e, next_char, v);
            } else if continues(tbl, *trie, p, c, r, n, cu, rem, v) && v.path.len() > k && v.path[k]
                == e {
                lemma_next(tbl, *trie, p, c, r, n, cu, rem, e, v);
            }
        }
        if !trie.has_key(n, next_char) {
            assert(out@.subrange(0, out0.len() as int) =~= out0);
        }
        assert forall|i: int| out0.len() <= i < out@.len() implies continues(
            tbl,
            *trie,
            p,
            c,
            r,
            n,
            cu,
            rem,
            #[trigger] out@[i]@,
        ) && out@[i]@.path.len() > k && out@[i]@.path[k] == e && pick(tbl, out@[i]@, k, j0)
            == next_char by {
            lemma_step(tbl, *trie, p, c, r, n, cu, rem, e, next_char, out@[i]@);
        }
    }
    if remain_swap >= 1 {
        let kids = &trie.nodes[node].children;
        let mut j: usize = 0;
        while j < kids.len()
            invariant
                0 <= j <= kids@.len(),
                kids@ == trie.kids(n),
                n == node,
                next_index.0 < TABLE_SIZE,
                next_index.1 < TABLE_SIZE,
                e == next_index.0 * 5 + next_index.1,
                e < 25,
                !p.contains(e),
                k > 0 ==> adjacent(p.last() as int, e as int),
                next_char == letter_at(tbl, e as int),
                k == p.len(),
                j0 == r.len(),
                p == old(history_)@,
                c == old(history_char)@,
                c.len() == p.len(),
                distinct_cells(p.push(e)),
                p.push(e).len() <= 25,
                history_.wf(),
                history_@ == p,
                history_char.wf(),
                history_char@ == c,
                result_string@ == r,
                trie.wf(),
                node < trie.nodes@.len(),
                cu == can_use_swap,
                rem == remain_swap,
                1 <= remain_swap <= can_use_swap,
                all_marked(out0) ==> all_marked(out@),
                keeps_prefix(out0, out@),
                distinct_from(out@, out0.len() as int),
                forall|i: int|
                    out0.len() <= i < out@.len() ==> continues(
                        tbl,
                        *trie,
                        p,
                        c,
                        r,
                        n,
                        cu,
                        rem,
                        #[trigger] out@[i]@,
                    ) && out@[i]@.path.len() > k && out@[i]@.path[k] == e && (pick(tbl, out@[i]@, k, j0)
                        == next_char || (pick(tbl, out@[i]@, k, j0) != next_char && trie.key_index(
                        n,
                        pick(tbl, out@[i]@, k, j0),
                    ) < j)),
                forall|v: FoundView|
                    #![trigger listed(out@, v)]
                    listed(out@, v) <==> (listed(out0, v) || (continues(
                        tbl,
                        *trie,
                        p,
                        c,
                        r,
                        n,
                        cu,
                        rem,
                        v,
                    ) && v.path.len() > k && v.path[k] == e && (pick(tbl, v, k, j0) == next_char || (
                    pick(tbl, v, k, j0) != next_char && trie.key_index(n, pick(tbl, v, k, j0)) < j)))),
            decreases kids@.len() - j,
        {
            let ghost out2 = out@;
            let (chr, child) = kids[j];
            let mut result_string2 = result_string.clone();
            push_char(&mut result_string2, chr);
            proof {
                lemma_key_index(*trie, n, j as int);
            }
            if next_char != chr {
                search(
                    next_index,
                    history_,
                    history_char,
                    tbl,
                    trie,
                    child,
                    out,
                    can_use_swap,
                    remain_swap - 1,
                    &mut result_string2,
                );
            }
            proof {
                assert forall|v: FoundView|
                    #![trigger listed(out@, v)]
                    listed(out@, v) <==> (listed(out0, v) || (continues(
                        tbl,
                        *trie,
                        p,
                        c,
                        r,
                        n,
                        cu,
                        rem,
                        v,
                    ) && v.path.len() > k && v.path[k] == e && (pick(tbl, v, k, j0) == next_char || (
                    pick(tbl, v, k, j0) != next_char && trie.key_index(n, pick(tbl, v, k, j0)) < j
                        + 1)))) by {
                    lemma_step(tbl, *trie, p, c, r, n, cu, rem, e, chr, v);
                    if continues(tbl, *trie, p, c, r, n, cu, rem, v) && v.path.len() > k && v.path[k]
                        == e {
                        lemma_next(tbl, *trie, p, c, r, n, cu, rem, e, v);
                        let ki = trie.key_index(n, pick(tbl, v, k, j0));
                        if ki == j {
                            assert(pick(tbl, v, k, j0) == chr);
                        }
                    }
                }
                if next_char == chr {
                    assert(out@ == out2);
                    assert(out2.subrange(0, out2.len() as int) =~= out2);
                }
                lemma_prefix_trans(out0, out2, out@);
                assert forall|i: int| out0.len() <= i < out@.len() implies continues(
                    tbl,
                    *trie,
                    p,
                    c,
                    r,
                    n,
                    cu,
                    rem,
                    #[trigger] out@[i]@,
                ) && out@[i]@.path.len() > k && out@[i]@.path[k] == e && (pick(tbl, out@[i]@, k, j0)
                    == next_char || (pick(tbl, out@[i]@, k, j0) != next_char && trie.key_index(
                    n,
                    pick(tbl, out@[i]@, k, j0),
                ) < j + 1)) by {
                    if i < out2.len() {
                        lemma_prefix_index(out2, out@, i);
                    } else {
                        lemma_step(tbl, *trie, p, c, r, n, cu, rem, e, chr, out@[i]@);
                    }
                }
                assert forall|a: int, b: int| out0.len() <= a < b < out@.len() implies #[trigger] out@[a]@
                    != #[trigger] out@[b]@ by {
                    if b < out2.len() {
                        lemma_prefix_index(out2, out@, a);
                        lemma_prefix_index(out2, out@, b);
                    } else if a < out2.len() {
                        lemma_prefix_index(out2, out@, a);
                        lemma_step(tbl, *trie, p, c, r, n, cu, rem, e, chr, out@[b]@);
                    }
                }
            }
            j = j + 1;
        }
        proof {
            assert forall|v: FoundView|
                continues(tbl, *trie, p, c, r, n, cu, rem, v) && v.path.len() > k && v.path[k] == e
                    && pick(tbl, v, k, j0) != next_char implies trie.key_index(n, pick(tbl, v, k, j0))
                < j by {
                lemma_next(tbl, *trie, p, c, r, n, cu, rem, e, v);
            }
        }
    } else {
        proof {
            assert forall|v: FoundView|
                continues(tbl, *trie, p, c, r, n, cu, rem, v) && v.path.len() > k && v.path[k]
                    == e implies pick(tbl, v, k, j0) == next_char by {
                lemma_next(tbl, *trie, p, c, r, n, cu, rem, e, v);
            }
        }
    }
}

} // verus!
