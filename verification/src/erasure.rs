//! Loop erasure: cutting the revisits out of a recorded walk.
//!
//! The erased walk keeps the first cell, jumps to just behind the last visit
//! of that cell, and goes on in the same way from there. The final cell of a
//! walk is where it met the maze; it is never looked at as a revisit.

use vstd::prelude::*;
use crate::cell::CellIndex;

verus! {

/// The greatest index below `upto` at which `c` stands in `s`, or -1 if
/// there is none.
pub open spec fn last_index_of(s: Seq<CellIndex>, c: CellIndex, upto: int) -> int
    decreases upto,
{
    if upto <= 0 {
        -1
    } else if s[upto - 1] == c {
        upto - 1
    } else {
        last_index_of(s, c, upto - 1)
    }
}

/// The walk `s` with its loops erased.
pub open spec fn erase_loops_spec(s: Seq<CellIndex>) -> Seq<CellIndex>
    decreases s.len(),
{
    if s.len() <= 1 {
        s
    } else {
        let last_visit = last_index_of(s, s[0], s.len() - 1);
        if 0 <= last_visit < s.len() - 1 {
            seq![s[0]] + erase_loops_spec(s.subrange(last_visit + 1, s.len() as int))
        } else {
            s
        }
    }
}

/// No cell stands twice in `s`.
pub open spec fn no_repeats(s: Seq<CellIndex>) -> bool {
    forall|i: int, j: int| 0 <= i < j < s.len() ==> s[i] != s[j]
}

/// Somewhere in `s` the cell `a` is directly followed by the cell `b`.
pub open spec fn follows_in(s: Seq<CellIndex>, a: CellIndex, b: CellIndex) -> bool {
    exists|m: int| 0 <= m < s.len() - 1 && #[trigger] s[m] == a && s[m + 1] == b
}

/// Somewhere in `s` the cell at position `t` of `e` is directly followed by
/// the cell at position `t + 1` of `e`.
pub open spec fn follows_at(s: Seq<CellIndex>, e: Seq<CellIndex>, t: int) -> bool {
    follows_in(s, e[t], e[t + 1])
}

/// What `last_index_of` finds: an index of `c` with no `c` behind it.
pub proof fn lemma_last_index_of(s: Seq<CellIndex>, c: CellIndex, upto: int)
    requires
        0 <= upto <= s.len(),
    ensures
        -1 <= last_index_of(s, c, upto) < upto,
        last_index_of(s, c, upto) >= 0 ==> s[last_index_of(s, c, upto)] == c,
        forall|k: int| last_index_of(s, c, upto) < k < upto ==> #[trigger] s[k] != c,
    decreases upto,
{
    if upto > 0 && s[upto - 1] != c {
        lemma_last_index_of(s, c, upto - 1);
    }
}

/// Where the first cell of a walk is last visited before the walk's end.
pub proof fn lemma_last_visit(s: Seq<CellIndex>)
    requires
        s.len() >= 2,
    ensures
        0 <= last_index_of(s, s[0], s.len() - 1) < s.len() - 1,
        s[last_index_of(s, s[0], s.len() - 1)] == s[0],
        forall|k: int|
            last_index_of(s, s[0], s.len() - 1) < k < s.len() - 1 ==> #[trigger] s[k] != s[0],
{
    lemma_last_index_of(s, s[0], s.len() - 1);
    if last_index_of(s, s[0], s.len() - 1) < 0 {
        assert(s[0] != s[0]);
    }
}

/// The shape of an erased walk: it starts and ends where the walk does, each
/// of its cells is followed by a cell that followed it in the walk, and no
/// cell before its last stands in it twice.
pub proof fn lemma_erase_loops_shape(s: Seq<CellIndex>)
    requires
        s.len() >= 1,
    ensures
        1 <= erase_loops_spec(s).len() <= s.len(),
        erase_loops_spec(s)[0] == s[0],
        erase_loops_spec(s).last() == s.last(),
        forall|t: int|
            0 <= t < erase_loops_spec(s).len() - 1 ==> #[trigger] follows_at(
                s,
                erase_loops_spec(s),
                t,
            ),
        no_repeats(erase_loops_spec(s).drop_last()),
    decreases s.len(),
{
    let e = erase_loops_spec(s);
    if s.len() >= 2 {
        lemma_last_visit(s);
        let j = last_index_of(s, s[0], s.len() - 1);
        let rest = s.subrange(j + 1, s.len() as int);
        let tail = erase_loops_spec(rest);
        lemma_erase_loops_shape(rest);
        assert(e == seq![s[0]] + tail);
        assert forall|t: int| 0 <= t < e.len() - 1 implies #[trigger] follows_at(s, e, t) by {
            if t == 0 {
                assert(s[j] == e[0] && s[j + 1] == e[1]);
            } else {
                assert(e[t] == tail[t - 1]);
                assert(follows_at(rest, tail, t - 1));
                let m = choose|m: int|
                    0 <= m < rest.len() - 1 && #[trigger] rest[m] == tail[t - 1] && rest[m + 1]
                        == tail[t - 1 + 1];
                assert(s[j + 1 + m] == e[t] && s[j + 1 + m + 1] == e[t + 1]);
            }
        }
        let front = e.drop_last();
        assert forall|t: int, u: int| 0 <= t < u < front.len() implies front[t] != front[u] by {
            assert(front[u] == tail[u - 1]);
            if t == 0 {
                assert(follows_at(rest, tail, u - 1));
                let m = choose|m: int|
                    0 <= m < rest.len() - 1 && #[trigger] rest[m] == tail[u - 1] && rest[m + 1]
                        == tail[u - 1 + 1];
                assert(s[j + 1 + m] == front[u]);
            } else {
                assert(front[t] == tail.drop_last()[t - 1]);
                assert(front[u] == tail.drop_last()[u - 1]);
            }
        }
    }
}

/// Every cell of an erased walk but the last stands in the walk before the
/// walk's last cell.
pub proof fn lemma_erase_loops_members(s: Seq<CellIndex>, t: int)
    requires
        s.len() >= 1,
        0 <= t < erase_loops_spec(s).len() - 1,
    ensures
        s.drop_last().contains(erase_loops_spec(s)[t]),
{
    lemma_erase_loops_shape(s);
    let e = erase_loops_spec(s);
    assert(follows_at(s, e, t));
    let m = choose|m: int| 0 <= m < s.len() - 1 && #[trigger] s[m] == e[t] && s[m + 1] == e[t + 1];
    assert(s.drop_last()[m] == e[t]);
}

/// Where a walk reaches its last cell for the first time at its end, no
/// cell stands twice in the erased walk.
pub proof fn lemma_erase_loops_simple(s: Seq<CellIndex>)
    requires
        s.len() >= 1,
        !s.drop_last().contains(s.last()),
    ensures
        no_repeats(erase_loops_spec(s)),
{
    let e = erase_loops_spec(s);
    lemma_erase_loops_shape(s);
    assert forall|t: int, u: int| 0 <= t < u < e.len() implies e[t] != e[u] by {
        if u < e.len() - 1 {
            assert(e.drop_last()[t] != e.drop_last()[u]);
        } else {
            lemma_erase_loops_members(s, t);
        }
    }
}

/// A walk in which no cell before the last stands twice has no loop to
/// erase.
pub proof fn lemma_erase_loops_fixes_simple(s: Seq<CellIndex>)
    requires
        no_repeats(s.drop_last()),
    ensures
        erase_loops_spec(s) == s,
    decreases s.len(),
{
    if s.len() >= 2 {
        lemma_last_visit(s);
        let j = last_index_of(s, s[0], s.len() - 1);
        if j > 0 {
            assert(s.drop_last()[0] == s.drop_last()[j]);
        }
        let rest = s.subrange(1, s.len() as int);
        let inner = rest.drop_last();
        assert forall|t: int, u: int| 0 <= t < u < inner.len() implies inner[t] != inner[u] by {
            assert(inner[t] == s.drop_last()[t + 1]);
            assert(inner[u] == s.drop_last()[u + 1]);
        }
        lemma_erase_loops_fixes_simple(rest);
        assert(seq![s[0]] + rest =~= s);
    }
}

/// Erasing the loops of a walk a second time changes nothing.
pub proof fn lemma_erase_loops_idempotent(s: Seq<CellIndex>)
    ensures
        erase_loops_spec(erase_loops_spec(s)) == erase_loops_spec(s),
{
    if s.len() >= 1 {
        lemma_erase_loops_shape(s);
        lemma_erase_loops_fixes_simple(erase_loops_spec(s));
    }
}

/// Erases the loops of `walk`.
///
/// Going through the walk from its start, each cell is kept once and the
/// walk is cut from that cell to its last visit before the final cell.
pub fn erase_loops(walk: &Vec<CellIndex>) -> (path: Vec<CellIndex>)
    ensures
        path@ == erase_loops_spec(walk@),
{
    let mut path: Vec<CellIndex> = Vec::new();
    let len = walk.len();
    let mut i: usize = 0;
    proof {
        assert(walk@.subrange(0, len as int) =~= walk@);
        assert(path@ + erase_loops_spec(walk@) =~= erase_loops_spec(walk@));
    }
    while i < len
        invariant
            len == walk@.len(),
            i <= len,
            erase_loops_spec(walk@) == path@ + erase_loops_spec(
                walk@.subrange(i as int, len as int),
            ),
        decreases len - i,
    {
        let ghost rest = walk@.subrange(i as int, len as int);
        let cell = walk[i];
        let mut j: usize = if i + 1 < len {
            len - 1
        } else {
            i + 1
        };
        while j > i + 1 && !(walk[j - 1].0 == cell.0 && walk[j - 1].1 == cell.1)
            invariant
                len == walk@.len(),
                i < j <= len,
                i + 1 < len ==> j <= len - 1,
                cell == walk@[i as int],
                rest == walk@.subrange(i as int, len as int),
                i + 1 < len ==> last_index_of(rest, cell, len - 1 - i) == last_index_of(
                    rest,
                    cell,
                    j - i,
                ),
            decreases j,
        {
            assert(rest[j - i - 1] == walk@[j - 1]);
            j -= 1;
        }
        proof {
            if i + 1 < len {
                lemma_last_visit(rest);
                if j > i + 1 {
                    assert(rest[j - i - 1] == walk@[j - 1]);
                } else {
                    assert(rest[0] == cell);
                    assert(last_index_of(rest, cell, 0) == -1);
                }
                assert(last_index_of(rest, rest[0], rest.len() - 1) == j - i - 1);
                assert(rest.subrange(j - i, rest.len() as int) =~= walk@.subrange(
                    j as int,
                    len as int,
                ));
                assert(erase_loops_spec(rest) == seq![cell] + erase_loops_spec(
                    walk@.subrange(j as int, len as int),
                ));
            } else {
                assert(rest =~= seq![cell]);
                assert(walk@.subrange(j as int, len as int) =~= Seq::<CellIndex>::empty());
                assert(erase_loops_spec(rest) =~= seq![cell] + erase_loops_spec(
                    walk@.subrange(j as int, len as int),
                ));
            }
            assert(path@.push(cell) + erase_loops_spec(walk@.subrange(j as int, len as int))
                =~= path@ + (seq![cell] + erase_loops_spec(
                walk@.subrange(j as int, len as int),
            )));
        }
        path.push(cell);
        i = j;
    }
    proof {
        assert(walk@.subrange(len as int, len as int) =~= Seq::<CellIndex>::empty());
        assert(path@ + Seq::<CellIndex>::empty() =~= path@);
    }
    path
}

} // verus!
