//! Order independence of conflict resolution: when the replacement groups
//! of a step write to pairwise disjoint cells — as they do for
//! non-overlapping deterministic patterns — the claim walk produces the same
//! grid for every ordering of the groups, so the random tie-break shuffle
//! cannot change the outcome.

use crate::rule::pattern_rule::{
    apply_from, apply_groups, approved, cells_set, claimed_upto, covers, group_free,
    groups_in_range, lemma_apply_from_len, lemma_cell_index, lemma_row_major_unique,
    lemma_write_seq_len, write_seq, writes_in_range, CellWrite, RepView,
};
use vstd::prelude::*;

verus! {

/// No two distinct groups write a common cell.
pub open spec fn pairwise_disjoint(s: Seq<RepView>) -> bool {
    forall|i: int, j: int, r: int, c: int|
        #![trigger covers(s[i].cells, r, c), covers(s[j].cells, r, c)]
        0 <= i < s.len() && 0 <= j < s.len() && i != j ==> !(covers(s[i].cells, r, c) && covers(
            s[j].cells,
            r,
            c,
        ))
}

/// The last value the group writes at `(r, c)`, or the given default when
/// the group does not write there.
pub open spec fn last_value(cells: Seq<CellWrite>, r: int, c: int, dflt: u8) -> u8
    decreases cells.len(),
{
    if cells.len() == 0 {
        dflt
    } else {
        let cw = cells.last();
        if cw.row == r && cw.col == c {
            cw.value
        } else {
            last_value(cells.drop_last(), r, c, dflt)
        }
    }
}

/// The value of the cell `(r, c)` after the claim walk from group `i` on,
/// starting from the given current value.
pub open spec fn walk_cell(s: Seq<RepView>, i: int, r: int, c: int, dflt: u8) -> u8
    decreases s.len() - i,
{
    if !(0 <= i < s.len()) {
        dflt
    } else {
        walk_cell(
            s,
            i + 1,
            r,
            c,
            if approved(s, i) && covers(s[i].cells, r, c) {
                last_value(s[i].cells, r, c, dflt)
            } else {
                dflt
            },
        )
    }
}

/// Dropping the last write keeps earlier coverage, and coverage by the rest
/// transfers to the whole group.
proof fn lemma_covers_drop_last(cells: Seq<CellWrite>, r: int, c: int)
    requires
        cells.len() > 0,
    ensures
        covers(cells.drop_last(), r, c) ==> covers(cells, r, c),
        covers(cells, r, c) && !(cells.last().row == r && cells.last().col == c) ==> covers(
            cells.drop_last(),
            r,
            c,
        ),
{
    if covers(cells.drop_last(), r, c) {
        let k = choose|k: int|
            0 <= k < cells.drop_last().len() && (#[trigger] cells.drop_last()[k]).row == r
                && cells.drop_last()[k].col == c;
        assert(cells[k] == cells.drop_last()[k]);
        assert(covers(cells, r, c));
    }
    if covers(cells, r, c) && !(cells.last().row == r && cells.last().col == c) {
        let k = choose|k: int|
            0 <= k < cells.len() && (#[trigger] cells[k]).row == r && cells[k].col == c;
        assert(k < cells.len() - 1);
        assert(cells.drop_last()[k] == cells[k]);
        assert(covers(cells.drop_last(), r, c));
    }
}

/// A group that does not write `(r, c)` leaves the default unchanged.
proof fn lemma_last_value_nocover(cells: Seq<CellWrite>, r: int, c: int, dflt: u8)
    requires
        !covers(cells, r, c),
    ensures
        last_value(cells, r, c, dflt) == dflt,
    decreases cells.len(),
{
    if cells.len() > 0 {
        let cw = cells.last();
        assert(!(cw.row == r && cw.col == c)) by {
            if cw.row == r && cw.col == c {
                assert(cells[cells.len() - 1] == cw);
                assert(covers(cells, r, c));
            }
        }
        lemma_covers_drop_last(cells, r, c);
        lemma_last_value_nocover(cells.drop_last(), r, c, dflt);
    }
}

/// Performing a group's writes sets each cell to the group's last write at
/// that cell, and leaves uncovered cells unchanged.
proof fn lemma_write_seq_cell(
    data: Seq<u8>,
    rows: int,
    cols: int,
    cells: Seq<CellWrite>,
    r: int,
    c: int,
)
    requires
        data.len() == rows * cols,
        writes_in_range(cells, rows, cols),
        0 <= r < rows,
        0 <= c < cols,
    ensures
        write_seq(data, cols, cells)[r * cols + c] == last_value(
            cells,
            r,
            c,
            data[r * cols + c],
        ),
    decreases cells.len(),
{
    lemma_cell_index(rows, cols, r, c);
    if cells.len() > 0 {
        let cw = cells.last();
        let rest = cells.drop_last();
        assert(writes_in_range(rest, rows, cols)) by {
            assert(forall|k: int| 0 <= k < rest.len() ==> rest[k] == (#[trigger] cells[k]));
        }
        lemma_write_seq_cell(data, rows, cols, rest, r, c);
        lemma_write_seq_len(data, rows, cols, rest);
        assert(cells[cells.len() - 1] == cw);
        lemma_cell_index(rows, cols, cw.row as int, cw.col as int);
        lemma_row_major_unique(rows, cols, r, c, cw.row as int, cw.col as int);
        if cw.row == r && cw.col == c {
            assert(write_seq(data, cols, cells)[r * cols + c] == cw.value);
        } else {
            assert(write_seq(data, cols, cells)[r * cols + c] == write_seq(data, cols, rest)[r
                * cols + c]);
        }
    }
}

/// The claim walk computes each cell independently: the grid after the walk
/// holds at `(r, c)` exactly the per-cell walk over the groups.
proof fn lemma_apply_from_cell(
    data: Seq<u8>,
    rows: int,
    cols: int,
    s: Seq<RepView>,
    i: int,
    r: int,
    c: int,
)
    requires
        data.len() == rows * cols,
        groups_in_range(s, rows, cols),
        0 <= r < rows,
        0 <= c < cols,
    ensures
        apply_from(data, cols, s, i)[r * cols + c] == walk_cell(s, i, r, c, data[r * cols + c]),
    decreases s.len() - i,
{
    lemma_cell_index(rows, cols, r, c);
    if 0 <= i < s.len() {
        assert(writes_in_range(s[i].cells, rows, cols));
        if approved(s, i) {
            let data2 = write_seq(data, cols, s[i].cells);
            lemma_write_seq_len(data, rows, cols, s[i].cells);
            lemma_write_seq_cell(data, rows, cols, s[i].cells, r, c);
            lemma_apply_from_cell(data2, rows, cols, s, i + 1, r, c);
            if !covers(s[i].cells, r, c) {
                lemma_last_value_nocover(s[i].cells, r, c, data[r * cols + c]);
            }
        } else {
            lemma_apply_from_cell(data, rows, cols, s, i + 1, r, c);
        }
    }
}

/// A claimed cell is covered by some earlier group.
proof fn lemma_claimed_covers(s: Seq<RepView>, i: int, r: int, c: int)
    requires
        claimed_upto(s, i).contains((r, c)),
    ensures
        exists|j: int| 0 <= j < i && covers((#[trigger] s[j]).cells, r, c),
    decreases i,
{
    if i > 0 {
        let prev = claimed_upto(s, i - 1);
        if group_free(s[i - 1].cells, prev) && cells_set(s[i - 1].cells).contains((r, c)) {
            assert(covers(s[i - 1].cells, r, c));
        } else {
            assert(prev.contains((r, c)));
            lemma_claimed_covers(s, i - 1, r, c);
        }
    }
}

/// With pairwise disjoint groups, the claim walk approves every group.
proof fn lemma_all_approved(s: Seq<RepView>, i: int)
    requires
        pairwise_disjoint(s),
        0 <= i < s.len(),
    ensures
        approved(s, i),
{
    assert forall|k: int| 0 <= k < s[i].cells.len() implies !claimed_upto(s, i).contains(
        (((#[trigger] s[i].cells[k]).row as int), (s[i].cells[k].col as int)),
    ) by {
        let r = s[i].cells[k].row as int;
        let c = s[i].cells[k].col as int;
        if claimed_upto(s, i).contains((r, c)) {
            lemma_claimed_covers(s, i, r, c);
            let j = choose|j: int| 0 <= j < i && covers((#[trigger] s[j]).cells, r, c);
            assert(covers(s[i].cells, r, c));
            assert(!(covers(s[i].cells, r, c) && covers(s[j].cells, r, c)));
        }
    }
}

/// The per-cell walk over groups none of which writes `(r, c)` returns the
/// default.
proof fn lemma_walk_cell_none(s: Seq<RepView>, i: int, r: int, c: int, dflt: u8)
    requires
        forall|j: int| i <= j < s.len() ==> !covers((#[trigger] s[j]).cells, r, c),
    ensures
        walk_cell(s, i, r, c, dflt) == dflt,
    decreases s.len() - i,
{
    if 0 <= i < s.len() {
        lemma_walk_cell_none(s, i + 1, r, c, dflt);
    }
}

/// With pairwise disjoint groups, the per-cell walk returns the value of
/// the unique covering group at or after `i`.
proof fn lemma_walk_cell_covering(s: Seq<RepView>, i: int, j: int, r: int, c: int, dflt: u8)
    requires
        pairwise_disjoint(s),
        0 <= i <= j < s.len(),
        covers(s[j].cells, r, c),
    ensures
        walk_cell(s, i, r, c, dflt) == last_value(s[j].cells, r, c, dflt),
    decreases s.len() - i,
{
    if i < j {
        assert(!covers(s[i].cells, r, c));
        lemma_walk_cell_covering(s, i + 1, j, r, c, dflt);
    } else {
        lemma_all_approved(s, j);
        let d2 = last_value(s[j].cells, r, c, dflt);
        assert forall|t: int| j + 1 <= t < s.len() implies !covers(
            (#[trigger] s[t]).cells,
            r,
            c,
        ) by {
            assert(covers(s[j].cells, r, c));
        }
        lemma_walk_cell_none(s, j + 1, r, c, d2);
    }
}

/// Two equal values at distinct indices give the value multiset count at
/// least two.
proof fn lemma_two_indices_count(s: Seq<RepView>, i: int, j: int)
    requires
        0 <= i < j < s.len(),
        s[i] == s[j],
    ensures
        s.to_multiset().count(s[i]) >= 2,
{
    broadcast use vstd::seq_lib::group_to_multiset_ensures;

    let x = s[i];
    let rest = s.remove(i);
    assert(rest.to_multiset() == s.to_multiset().remove(x));
    assert(rest[j - 1] == s[j]);
    assert(rest.contains(x));
    assert(rest.to_multiset().count(x) > 0);
    assert(s.to_multiset().count(x) > 0) by {
        assert(s.contains(x));
    }
    assert(s.to_multiset().remove(x).count(x) == s.to_multiset().count(x) - 1);
}

/// A multiset count of at least two yields two distinct indices with that
/// value.
proof fn lemma_count_two_indices(s: Seq<RepView>, x: RepView)
    requires
        s.to_multiset().count(x) >= 2,
    ensures
        exists|i: int, j: int| 0 <= i < j < s.len() && (#[trigger] s[i]) == x && (#[trigger] s[j]) == x,
    decreases s.len(),
{
    broadcast use vstd::seq_lib::group_to_multiset_ensures;

    assert(s.to_multiset().len() >= 2) by {
        assert(s.to_multiset().count(x) <= s.to_multiset().len());
    }
    assert(s.len() >= 2);
    let rest = s.remove(0);
    assert(rest.to_multiset() == s.to_multiset().remove(s[0]));
    if s[0] == x {
        assert(rest.to_multiset().count(x) >= 1);
        assert(rest.contains(x));
        let k = choose|k: int| 0 <= k < rest.len() && rest[k] == x;
        assert(s[k + 1] == rest[k]);
        assert(0 <= 0 < k + 1 < s.len() && s[0] == x && s[k + 1] == x);
    } else {
        assert(rest.to_multiset().count(x) >= 2);
        lemma_count_two_indices(rest, x);
        let (i2, j2): (int, int) = choose|i2: int, j2: int|
            0 <= i2 < j2 < rest.len() && (#[trigger] rest[i2]) == x && (#[trigger] rest[j2]) == x;
        assert(s[i2 + 1] == rest[i2] && s[j2 + 1] == rest[j2]);
        assert(0 <= i2 + 1 < j2 + 1 < s.len() && s[i2 + 1] == x && s[j2 + 1] == x);
    }
}

/// Pairwise disjointness carries over to any reordering (any sequence with
/// the same multiset of groups).
proof fn lemma_disjoint_transfer(s1: Seq<RepView>, s2: Seq<RepView>)
    requires
        s1.to_multiset() == s2.to_multiset(),
        pairwise_disjoint(s1),
    ensures
        pairwise_disjoint(s2),
{
    broadcast use vstd::seq_lib::group_to_multiset_ensures;

    assert forall|i: int, j: int, r: int, c: int|
        #![trigger covers(s2[i].cells, r, c), covers(s2[j].cells, r, c)]
        0 <= i < s2.len() && 0 <= j < s2.len() && i != j implies !(covers(s2[i].cells, r, c)
        && covers(s2[j].cells, r, c)) by {
        if covers(s2[i].cells, r, c) && covers(s2[j].cells, r, c) {
            let gi = s2[i];
            let gj = s2[j];
            if gi == gj {
                let (a, b) = if i < j {
                    (i, j)
                } else {
                    (j, i)
                };
                lemma_two_indices_count(s2, a, b);
                assert(s1.to_multiset().count(gi) >= 2);
                lemma_count_two_indices(s1, gi);
                let (i1, j1): (int, int) = choose|i1: int, j1: int|
                    0 <= i1 < j1 < s1.len() && (#[trigger] s1[i1]) == gi && (#[trigger] s1[j1])
                        == gi;
                assert(covers(s1[i1].cells, r, c) && covers(s1[j1].cells, r, c));
            } else {
                assert(s2.contains(gi) && s2.contains(gj));
                assert(s1.to_multiset().count(gi) > 0 && s1.to_multiset().count(gj) > 0);
                assert(s1.contains(gi) && s1.contains(gj));
                let i1 = choose|i1: int| 0 <= i1 < s1.len() && s1[i1] == gi;
                let j1 = choose|j1: int| 0 <= j1 < s1.len() && s1[j1] == gj;
                assert(i1 != j1);
                assert(covers(s1[i1].cells, r, c) && covers(s1[j1].cells, r, c));
            }
        }
    }
}

/// Order independence of conflict resolution: pairwise disjoint replacement
/// groups — as produced by non-overlapping deterministic patterns — yield
/// the same grid under the claim walk for every ordering of the groups, so
/// the random tie-break shuffle cannot change the outcome of such a step.
pub proof fn lemma_resolution_order_independent(
    data: Seq<u8>,
    rows: int,
    cols: int,
    s1: Seq<RepView>,
    s2: Seq<RepView>,
)
    requires
        0 <= rows,
        0 <= cols,
        data.len() == rows * cols,
        groups_in_range(s1, rows, cols),
        s1.to_multiset() == s2.to_multiset(),
        pairwise_disjoint(s1),
    ensures
        apply_groups(data, cols, s1) == apply_groups(data, cols, s2),
{
    broadcast use vstd::seq_lib::group_to_multiset_ensures;

    lemma_disjoint_transfer(s1, s2);
    crate::rule::pattern_rule::lemma_in_range_transfer(s2, s1, rows, cols);
    lemma_apply_from_len(data, rows, cols, s1, 0);
    lemma_apply_from_len(data, rows, cols, s2, 0);
    let a1 = apply_groups(data, cols, s1);
    let a2 = apply_groups(data, cols, s2);
    assert forall|idx: int| 0 <= idx < data.len() implies a1[idx] == a2[idx] by {
        assert(0 < cols) by (nonlinear_arith)
            requires
                0 <= rows,
                0 <= cols,
                0 <= idx < rows * cols,
        ;
        let r = idx / cols;
        let c = idx % cols;
        vstd::arithmetic::div_mod::lemma_fundamental_div_mod(idx, cols);
        vstd::arithmetic::div_mod::lemma_div_pos_is_pos(idx, cols);
        vstd::arithmetic::div_mod::lemma_mod_bound(idx, cols);
        assert(r < rows) by (nonlinear_arith)
            requires
                0 <= idx < rows * cols,
                0 < cols,
                idx == cols * r + c,
                0 <= c < cols,
                0 <= r,
        ;
        assert(idx == r * cols + c) by (nonlinear_arith)
            requires
                idx == cols * r + c,
        ;
        lemma_apply_from_cell(data, rows, cols, s1, 0, r, c);
        lemma_apply_from_cell(data, rows, cols, s2, 0, r, c);
        let d0 = data[r * cols + c];
        if exists|j: int| 0 <= j < s1.len() && covers((#[trigger] s1[j]).cells, r, c) {
            let j1 = choose|j: int| 0 <= j < s1.len() && covers((#[trigger] s1[j]).cells, r, c);
            lemma_walk_cell_covering(s1, 0, j1, r, c, d0);
            assert(s1.contains(s1[j1]));
            assert(s2.to_multiset().count(s1[j1]) > 0);
            assert(s2.contains(s1[j1]));
            let j2 = choose|j: int| 0 <= j < s2.len() && s2[j] == s1[j1];
            assert(covers(s2[j2].cells, r, c));
            lemma_walk_cell_covering(s2, 0, j2, r, c, d0);
        } else {
            assert forall|j: int| 0 <= j < s2.len() implies !covers(
                (#[trigger] s2[j]).cells,
                r,
                c,
            ) by {
                if covers(s2[j].cells, r, c) {
                    assert(s2.contains(s2[j]));
                    assert(s1.to_multiset().count(s2[j]) > 0);
                    assert(s1.contains(s2[j]));
                    let t = choose|t: int| 0 <= t < s1.len() && s1[t] == s2[j];
                    assert(covers(s1[t].cells, r, c));
                }
            }
            lemma_walk_cell_none(s1, 0, r, c, d0);
            lemma_walk_cell_none(s2, 0, r, c, d0);
        }
    }
    assert(a1 =~= a2);
}


/// Determinism under full chance: when every found group is kept — as the
/// pattern rule guarantees for patterns with full chance — and the found
/// groups write pairwise disjoint cells, every ordering the shuffle and the
/// sort can produce yields the same grid.
pub proof fn lemma_full_chance_determinism(
    data: Seq<u8>,
    rows: int,
    cols: int,
    all: Seq<RepView>,
    a1: Seq<RepView>,
    a2: Seq<RepView>,
)
    requires
        0 <= rows,
        0 <= cols,
        data.len() == rows * cols,
        groups_in_range(all, rows, cols),
        pairwise_disjoint(all),
        a1.to_multiset() == all.to_multiset(),
        a2.to_multiset() == all.to_multiset(),
    ensures
        apply_groups(data, cols, a1) == apply_groups(data, cols, a2),
{
    lemma_disjoint_transfer(all, a1);
    crate::rule::pattern_rule::lemma_in_range_transfer(a1, all, rows, cols);
    lemma_resolution_order_independent(data, rows, cols, a1, a2);
}

} // verus!
