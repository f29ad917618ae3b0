use vstd::prelude::*;
use vstd::string::*;

use crate::history::History;
use crate::text::push_char;

verus! {

/// The decimal digit character for `d` (0 to 9).
pub open spec fn digit_char(d: int) -> char {
    if d == 0 {
        '0'
    } else if d == 1 {
        '1'
    } else if d == 2 {
        '2'
    } else if d == 3 {
        '3'
    } else if d == 4 {
        '4'
    } else if d == 5 {
        '5'
    } else if d == 6 {
        '6'
    } else if d == 7 {
        '7'
    } else if d == 8 {
        '8'
    } else {
        '9'
    }
}

/// `n` written in decimal, without leading zeros.
pub open spec fn decimal(n: nat) -> Seq<char>
    decreases n,
{
    if n < 10 {
        seq![digit_char(n as int)]
    } else {
        decimal(n / 10).push(digit_char((n % 10) as int))
    }
}

/// `v` written in decimal, with a leading `-` when negative.
pub open spec fn int_text(v: int) -> Seq<char> {
    if v < 0 {
        seq!['-'] + decimal((-v) as nat)
    } else {
        decimal(v as nat)
    }
}

fn digit(d: u64) -> (c: char)
    requires
        d < 10,
    ensures
        c == digit_char(d as int),
{
    if d == 0 {
        '0'
    } else if d == 1 {
        '1'
    } else if d == 2 {
        '2'
    } else if d == 3 {
        '3'
    } else if d == 4 {
        '4'
    } else if d == 5 {
        '5'
    } else if d == 6 {
        '6'
    } else if d == 7 {
        '7'
    } else if d == 8 {
        '8'
    } else {
        '9'
    }
}

/// Appends `n` in decimal.
pub fn push_decimal(s: &mut String, n: u64)
    ensures
        final(s)@ == old(s)@ + decimal(n as nat),
    decreases n,
{
    if n >= 10 {
        push_decimal(s, n / 10);
    }
    push_char(s, digit(n % 10));
    proof {
        if n >= 10 {
            assert(old(s)@ + decimal(n as nat) =~= (old(s)@ + decimal((n / 10) as nat)).push(
                digit_char((n % 10) as int),
            ));
        } else {
            assert(old(s)@ + decimal(n as nat) =~= old(s)@.push(digit_char((n % 10) as int)));
        }
    }
}

/// `v` in decimal, as `i32`'s display writes it.
pub fn int_to_string(v: i32) -> (s: String)
    ensures
        s@ == int_text(v as int),
{
    let mut s = String::new();
    if v < 0 {
        push_char(&mut s, '-');
        let m = (0 - (v as i64)) as u64;
        push_decimal(&mut s, m);
    } else {
        push_decimal(&mut s, v as u64);
    }
    s
}

/// The positions, in increasing order, of the first `n` characters at which
/// `a` and `b` differ.
pub open spec fn diff_indices(a: Seq<char>, b: Seq<char>, n: nat) -> Seq<usize>
    decreases n,
{
    if n == 0 {
        Seq::empty()
    } else {
        let rest = diff_indices(a, b, (n - 1) as nat);
        if a[n - 1] != b[n - 1] {
            rest.push((n - 1) as usize)
        } else {
            rest
        }
    }
}

/// The shorter of two lengths.
pub open spec fn min_len(a: nat, b: nat) -> nat {
    if a <= b {
        a
    } else {
        b
    }
}

/// The positions at which `a` and `b` differ, over the length of the shorter one.
pub fn get_diff_string_index(a: String, b: String) -> (out: Vec<usize>)
    ensures
        out@ == diff_indices(a@, b@, min_len(a@.len(), b@.len())),
{
    let la = a.as_str().unicode_len();
    let lb = b.as_str().unicode_len();
    let n = if la <= lb {
        la
    } else {
        lb
    };
    let mut out: Vec<usize> = vec![];
    let mut i: usize = 0;
    while i < n
        invariant
            n == min_len(a@.len(), b@.len()),
            i <= n,
            out@ == diff_indices(a@, b@, i as nat),
        decreases n - i,
    {
        let ca = a.as_str().get_char(i);
        let cb = b.as_str().get_char(i);
        if ca != cb {
            out.push(i);
        }
        i = i + 1;
    }
    return out;
}

/// A position is listed exactly when the strings differ there, and the list
/// is increasing.
pub proof fn lemma_diff_indices_exact(a: Seq<char>, b: Seq<char>, n: nat)
    requires
        n <= usize::MAX,
    ensures
        forall|i: int| 0 <= i < n ==> (diff_indices(a, b, n).contains(i as usize) <==> a[i] != b[i]),
        forall|j: int, k: int|
            0 <= j < k < diff_indices(a, b, n).len() ==> diff_indices(a, b, n)[j] < diff_indices(a, b, n)[k],
        forall|j: int| 0 <= j < diff_indices(a, b, n).len() ==> diff_indices(a, b, n)[j] < n,
    decreases n,
{
    if n > 0 {
        let m = (n - 1) as nat;
        lemma_diff_indices_exact(a, b, m);
        let rest = diff_indices(a, b, m);
        let all = diff_indices(a, b, n);
        if a[m as int] != b[m as int] {
            assert(all == rest.push(m as usize));
            assert(all[rest.len() as int] == m as usize);
            assert forall|j: int| 0 <= j < rest.len() implies #[trigger] all[j] == rest[j] && rest[j] < m by {
            }
            assert forall|i: int| 0 <= i < n implies (all.contains(i as usize) <==> a[i] != b[i]) by {
                if i < m {
                    assert(rest.contains(i as usize) <==> a[i] != b[i]);
                    if all.contains(i as usize) {
                        let j = choose|j: int| 0 <= j < all.len() && all[j] == i as usize;
                        if j < rest.len() {
                            assert(rest[j] == i as usize);
                        } else {
                            assert(all[j] == m as usize);
                        }
                    }
                    if rest.contains(i as usize) {
                        let j = choose|j: int| 0 <= j < rest.len() && rest[j] == i as usize;
                        assert(all[j] == i as usize);
                    }
                } else {
                    assert(all[rest.len() as int] == i as usize);
                }
            }
            assert forall|j: int, k: int| 0 <= j < k < all.len() implies all[j] < all[k] by {
                if k == rest.len() {
                    assert(all[j] == rest[j]);
                } else {
                    assert(all[j] == rest[j]);
                    assert(all[k] == rest[k]);
                    assert(rest[j] < rest[k]);
                }
            }
        } else {
            assert(all == rest);
            assert forall|i: int| 0 <= i < n implies (all.contains(i as usize) <==> a[i] != b[i]) by {
                if i == m && all.contains(i as usize) {
                    let j = choose|j: int| 0 <= j < all.len() && all[j] == i as usize;
                    assert(rest[j] < m);
                }
            }
        }
    }
}

/// On a path that never repeats a cell, the drawing labels the cell of
/// step `i` with `i + 1`, and leaves every cell off the path as `_`.
pub proof fn lemma_trail_labels(path: Seq<u8>, pos: int)
    requires
        forall|i: int, j: int| 0 <= i < j < path.len() ==> path[i] != path[j],
    ensures
        forall|i: int| 0 <= i < path.len() && path[i] == pos ==> cell_label(path, pos) == decimal((i + 1) as nat),
        !path.contains(pos as u8) && 0 <= pos < 256 ==> cell_label(path, pos) == seq!['_'],
    decreases path.len(),
{
    if path.len() > 0 {
        let q = path.drop_last();
        lemma_trail_labels(q, pos);
        assert forall|i: int| 0 <= i < path.len() && path[i] == pos implies cell_label(path, pos) == decimal(
            (i + 1) as nat,
        ) by {
            if i < path.len() - 1 {
                assert(path[i] != path.last());
                assert(q[i] == pos);
            }
        }
        if !path.contains(pos as u8) && 0 <= pos < 256 {
            assert(path.last() != pos) by {
                if path.last() == pos {
                    assert(path[path.len() - 1] == pos as u8);
                }
            }
            assert(!q.contains(pos as u8)) by {
                if q.contains(pos as u8) {
                    let j = choose|j: int| 0 <= j < q.len() && q[j] == pos as u8;
                    assert(path[j] == pos as u8);
                }
            }
        }
    }
}

/// The text of board position `pos` in a path drawing: the step number (from
/// 1) of the last visit of the path there, or `_`.
pub open spec fn cell_label(path: Seq<u8>, pos: int) -> Seq<char>
    decreases path.len(),
{
    if path.len() == 0 {
        seq!['_']
    } else if path.last() == pos {
        decimal(path.len())
    } else {
        cell_label(path.drop_last(), pos)
    }
}

/// The drawing of the first `m` board positions: each label followed by a
/// space, and a line break after every fifth.
pub open spec fn grid_upto(path: Seq<u8>, m: nat) -> Seq<char>
    decreases m,
{
    if m == 0 {
        Seq::empty()
    } else {
        grid_upto(path, (m - 1) as nat) + cell_label(path, m - 1) + seq![' '] + if m % 5 == 0 {
            seq!['\n']
        } else {
            Seq::<char>::empty()
        }
    }
}

/// The five-line drawing of a path over the board.
pub open spec fn grid_text(path: Seq<u8>) -> Seq<char> {
    grid_upto(path, 25)
}

/// Draws the path of `history` as five lines of five labels: the step number
/// (from 1) where the path passes, `_` elsewhere.  The swapped word pair, when
/// given, does not change the drawing.
pub fn paths_to_string(history: &History, swap_string: Option<(String, String)>) -> (out: String)
    requires
        history.wf(),
        forall|i: int| 0 <= i < history@.len() ==> #[trigger] history@[i] < 25,
    ensures
        out@ == grid_text(history@),
{
    let ghost path = history@;
    let mut underscore = String::new();
    push_char(&mut underscore, '_');
    let mut tbl: Vec<String> = Vec::new();
    let mut p: usize = 0;
    while p < 25
        invariant
            p <= 25,
            underscore@ == seq!['_'],
            tbl@.len() == p,
            forall|q: int| 0 <= q < p ==> #[trigger] tbl@[q]@ == seq!['_'],
        decreases 25 - p,
    {
        tbl.push(underscore.clone());
        p = p + 1;
    }
    let cells = history.for_each();
    let mut i: usize = 1;
    while i <= cells.len()
        invariant
            cells@ == path.map_values(|h: u8| ((h / 5) as u8, (h % 5) as u8)),
            path.len() <= 25,
            forall|j: int| 0 <= j < path.len() ==> #[trigger] path[j] < 25,
            1 <= i <= path.len() + 1,
            tbl@.len() == 25,
            forall|q: int| 0 <= q < 25 ==> #[trigger] tbl@[q]@ == cell_label(path.take(i - 1), q),
        decreases path.len() + 1 - i,
    {
        let vec = cells[i - 1];
        let ghost h = path[i - 1];
        assert(h < 25);
        let pos = vec.0 as usize * 5 + vec.1 as usize;
        assert(pos == h);
        let mut label = String::new();
        push_decimal(&mut label, i as u64);
        tbl.set(pos, label);
        proof {
            let pk1 = path.take(i as int);
            assert(pk1.drop_last() =~= path.take(i - 1));
            assert(pk1.last() == h);
            assert forall|q: int| 0 <= q < 25 implies #[trigger] tbl@[q]@ == cell_label(pk1, q) by {
            }
        }
        i = i + 1;
    }
    assert(path.take(path.len() as int) =~= path);
    let mut out = String::new();
    let mut m: usize = 0;
    while m < 25
        invariant
            m <= 25,
            tbl@.len() == 25,
            forall|q: int| 0 <= q < 25 ==> #[trigger] tbl@[q]@ == cell_label(path, q),
            out@ == grid_upto(path, m as nat),
        decreases 25 - m,
    {
        out.append(tbl[m].as_str());
        out.append(" ");
        m = m + 1;
        if m % 5 == 0 {
            out.append("\n");
        }
        proof {
            reveal_strlit(" ");
            reveal_strlit("\n");
            assert(out@ =~= grid_upto(path, m as nat));
        }
    }
    out
}

} // verus!
