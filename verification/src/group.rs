use vstd::prelude::*;
use crate::blocks::ResultBlock;

verus! {

broadcast use vstd::seq_lib::group_seq_properties;

/// The index at or after `i` of the group for `path`, or `-1`.
pub open spec fn group_index_from(groups: Seq<(Seq<char>, Seq<int>)>, path: Seq<char>, i: int) -> int
    decreases groups.len() - i,
{
    if i < 0 || i >= groups.len() {
        -1
    } else if groups[i].0 == path {
        i
    } else {
        group_index_from(groups, path, i + 1)
    }
}

/// Adds block `i`, from file `path`, to its group.
pub open spec fn group_step(groups: Seq<(Seq<char>, Seq<int>)>, path: Seq<char>, i: int) -> Seq<
    (Seq<char>, Seq<int>),
> {
    let j = group_index_from(groups, path, 0);
    if j < 0 {
        groups.push((path, seq![i]))
    } else {
        groups.update(j, (groups[j].0, groups[j].1.push(i)))
    }
}

/// The blocks grouped by file: one group per file, in the order in which
/// the files first occur, each holding the indices of its blocks in order.
pub open spec fn group_by_path<B: ResultBlock>(blocks: Seq<B>) -> Seq<(Seq<char>, Seq<int>)>
    decreases blocks.len(),
{
    if blocks.len() == 0 {
        seq![]
    } else {
        group_step(group_by_path(blocks.drop_last()), blocks.last().file(), blocks.len() - 1)
    }
}

/// The views of exec groups.
pub open spec fn group_views(gs: Seq<(String, Vec<usize>)>) -> Seq<(Seq<char>, Seq<int>)> {
    gs.map_values(|g: (String, Vec<usize>)| (g.0@, g.1@.map_values(|k: usize| k as int)))
}

proof fn lemma_group_index_from(groups: Seq<(Seq<char>, Seq<int>)>, path: Seq<char>, i: int)
    requires
        0 <= i <= groups.len(),
    ensures
        key_found_or_absent(groups, path, i),
    decreases groups.len() - i,
{
    if i < groups.len() && groups[i].0 != path {
        lemma_group_index_from(groups, path, i + 1);
    }
}

spec fn key_found_or_absent(groups: Seq<(Seq<char>, Seq<int>)>, path: Seq<char>, i: int) -> bool {
    let j = group_index_from(groups, path, i);
    j == -1 || (i <= j < groups.len() && groups[j].0 == path)
}

proof fn lemma_group_bounds<B: ResultBlock>(blocks: Seq<B>)
    ensures
        forall|g: int, k: int|
            0 <= g < group_by_path(blocks).len() && 0 <= k < group_by_path(blocks)[g].1.len()
                ==> 0 <= #[trigger] group_by_path(blocks)[g].1[k] < blocks.len(),
    decreases blocks.len(),
{
    if blocks.len() > 0 {
        let prev = group_by_path(blocks.drop_last());
        lemma_group_bounds(blocks.drop_last());
        lemma_group_index_from(prev, blocks.last().file(), 0);
        let cur = group_by_path(blocks);
        assert forall|g: int, k: int| 0 <= g < cur.len() && 0 <= k < cur[g].1.len() implies 0
            <= #[trigger] cur[g].1[k] < blocks.len() by {
            if g < prev.len() && k < prev[g].1.len() {
                assert(cur[g].1[k] == prev[g].1[k]);
            }
        }
    }
}

proof fn lemma_group_index_absent(groups: Seq<(Seq<char>, Seq<int>)>, path: Seq<char>, i: int)
    requires
        0 <= i <= groups.len(),
        group_index_from(groups, path, i) == -1,
    ensures
        forall|g: int| i <= g < groups.len() ==> (#[trigger] groups[g]).0 != path,
    decreases groups.len() - i,
{
    if i < groups.len() {
        lemma_group_index_absent(groups, path, i + 1);
    }
}

proof fn lemma_grouping_members<B: ResultBlock>(blocks: Seq<B>)
    ensures
        forall|g: int, k: int|
            0 <= g < group_by_path(blocks).len() && 0 <= k < group_by_path(blocks)[g].1.len() ==> {
                let b = #[trigger] group_by_path(blocks)[g].1[k];
                0 <= b < blocks.len() && blocks[b].file() == group_by_path(blocks)[g].0
            },
        forall|g1: int, g2: int|
            0 <= g1 < g2 < group_by_path(blocks).len() ==> (#[trigger] group_by_path(blocks)[g1]).0
                != (#[trigger] group_by_path(blocks)[g2]).0,
        forall|g: int, k1: int, k2: int|
            0 <= g < group_by_path(blocks).len() && 0 <= k1 < k2 < group_by_path(blocks)[g].1.len()
                ==> #[trigger] group_by_path(blocks)[g].1[k1] < #[trigger] group_by_path(blocks)[g].1[k2],
        forall|g: int| 0 <= g < group_by_path(blocks).len() ==> (#[trigger] group_by_path(blocks)[g]).1.len() > 0,
        forall|g1: int, g2: int|
            0 <= g1 < g2 < group_by_path(blocks).len() ==> (#[trigger] group_by_path(blocks)[g1]).1[0]
                < (#[trigger] group_by_path(blocks)[g2]).1[0],
    decreases blocks.len(),
{
    if blocks.len() > 0 {
        let d = blocks.drop_last();
        let prev = group_by_path(d);
        lemma_grouping_members(d);
        let path = blocks.last().file();
        let i = blocks.len() - 1;
        let cur = group_by_path(blocks);
        lemma_group_index_from(prev, path, 0);
        let j = group_index_from(prev, path, 0);
        assert forall|m: int| 0 <= m < d.len() implies #[trigger] blocks[m] == d[m] by {}
        if j < 0 {
            lemma_group_index_absent(prev, path, 0);
            assert(cur == prev.push((path, seq![i])));
            assert forall|g: int, k: int|
                0 <= g < cur.len() && 0 <= k < cur[g].1.len() implies {
                    let b = #[trigger] cur[g].1[k];
                    0 <= b < blocks.len() && blocks[b].file() == cur[g].0
                } by {
                if g < prev.len() {
                    assert(cur[g] == prev[g]);
                    assert(d[prev[g].1[k]] == blocks[prev[g].1[k]]);
                }
            }
            assert forall|g1: int, g2: int| 0 <= g1 < g2 < cur.len() implies (#[trigger] cur[g1]).0
                != (#[trigger] cur[g2]).0 by {
                assert(cur[g1] == prev[g1]);
                if g2 < prev.len() {
                    assert(cur[g2] == prev[g2]);
                }
            }
            assert forall|g: int, k1: int, k2: int|
                0 <= g < cur.len() && 0 <= k1 < k2 < cur[g].1.len() implies #[trigger] cur[g].1[k1]
                < #[trigger] cur[g].1[k2] by {
                assert(g < prev.len());
                assert(cur[g] == prev[g]);
            }
            assert forall|g1: int, g2: int| 0 <= g1 < g2 < cur.len() implies (#[trigger] cur[g1]).1[0]
                < (#[trigger] cur[g2]).1[0] by {
                assert(cur[g1] == prev[g1]);
                assert(0 <= prev[g1].1[0] < d.len());
                if g2 < prev.len() {
                    assert(cur[g2] == prev[g2]);
                }
            }
            assert forall|g: int| 0 <= g < cur.len() implies (#[trigger] cur[g]).1.len() > 0 by {
                if g < prev.len() {
                    assert(cur[g] == prev[g]);
                }
            }
        } else {
            let grp = (prev[j].0, prev[j].1.push(i));
            assert(cur == prev.update(j, grp));
            assert forall|g: int, k: int|
                0 <= g < cur.len() && 0 <= k < cur[g].1.len() implies {
                    let b = #[trigger] cur[g].1[k];
                    0 <= b < blocks.len() && blocks[b].file() == cur[g].0
                } by {
                if g != j {
                    assert(cur[g] == prev[g]);
                    assert(d[prev[g].1[k]] == blocks[prev[g].1[k]]);
                } else if k < prev[j].1.len() {
                    assert(cur[g].1[k] == prev[j].1[k]);
                    assert(d[prev[j].1[k]] == blocks[prev[j].1[k]]);
                }
            }
            assert forall|g1: int, g2: int| 0 <= g1 < g2 < cur.len() implies (#[trigger] cur[g1]).0
                != (#[trigger] cur[g2]).0 by {
                assert(cur[g1].0 == prev[g1].0);
                assert(cur[g2].0 == prev[g2].0);
            }
            assert forall|g: int, k1: int, k2: int|
                0 <= g < cur.len() && 0 <= k1 < k2 < cur[g].1.len() implies #[trigger] cur[g].1[k1]
                < #[trigger] cur[g].1[k2] by {
                if g != j {
                    assert(cur[g] == prev[g]);
                } else {
                    assert(cur[g].1[k1] == prev[j].1[k1]);
                    assert(0 <= prev[j].1[k1] < d.len());
                    if k2 < prev[j].1.len() {
                        assert(cur[g].1[k2] == prev[j].1[k2]);
                    }
                }
            }
            assert forall|g1: int, g2: int| 0 <= g1 < g2 < cur.len() implies (#[trigger] cur[g1]).1[0]
                < (#[trigger] cur[g2]).1[0] by {
                assert(cur[g1].1[0] == prev[g1].1[0]);
                assert(cur[g2].1[0] == prev[g2].1[0]);
            }
            assert forall|g: int| 0 <= g < cur.len() implies (#[trigger] cur[g]).1.len() > 0 by {
                assert(prev[g].1.len() > 0);
            }
        }
    }
}

/// Whether block `i` is in a group of `groups` for its file.
pub open spec fn in_group_of_file<B: ResultBlock>(blocks: Seq<B>, groups: Seq<(Seq<char>, Seq<int>)>, i: int) -> bool {
    exists|g: int, k: int|
        0 <= g < groups.len() && 0 <= k < groups[g].1.len() && (#[trigger] groups[g].1[k]) == i
            && blocks[i].file() == groups[g].0
}

proof fn lemma_grouping_cover<B: ResultBlock>(blocks: Seq<B>)
    ensures
        forall|i: int| 0 <= i < blocks.len() ==> #[trigger] in_group_of_file(blocks, group_by_path(blocks), i),
    decreases blocks.len(),
{
    if blocks.len() > 0 {
        let d = blocks.drop_last();
        let prev = group_by_path(d);
        lemma_grouping_cover(d);
        let path = blocks.last().file();
        let i = blocks.len() - 1;
        let cur = group_by_path(blocks);
        lemma_group_index_from(prev, path, 0);
        let j = group_index_from(prev, path, 0);
        assert forall|m: int| 0 <= m < d.len() implies #[trigger] blocks[m] == d[m] by {}
        if j < 0 {
            assert(cur == prev.push((path, seq![i])));
            assert forall|i2: int| 0 <= i2 < blocks.len() implies #[trigger] in_group_of_file(blocks, cur, i2) by {
                if i2 < i {
                    assert(in_group_of_file(d, prev, i2));
                    let (g, k) = choose|g: int, k: int|
                        0 <= g < prev.len() && 0 <= k < prev[g].1.len() && (#[trigger] prev[g].1[k]) == i2
                            && d[i2].file() == prev[g].0;
                    assert(cur[g] == prev[g]);
                    assert(cur[g].1[k] == i2);
                    assert(blocks[i2] == d[i2]);
                } else {
                    assert(cur[prev.len() as int].1[0] == i2);
                    assert(blocks[i2].file() == cur[prev.len() as int].0);
                }
            }
        } else {
            let grp = (prev[j].0, prev[j].1.push(i));
            assert(cur == prev.update(j, grp));
            assert forall|i2: int| 0 <= i2 < blocks.len() implies #[trigger] in_group_of_file(blocks, cur, i2) by {
                if i2 < i {
                    assert(in_group_of_file(d, prev, i2));
                    let (g, k) = choose|g: int, k: int|
                        0 <= g < prev.len() && 0 <= k < prev[g].1.len() && (#[trigger] prev[g].1[k]) == i2
                            && d[i2].file() == prev[g].0;
                    if g != j {
                        assert(cur[g] == prev[g]);
                    }
                    assert(cur[g].1[k] == i2);
                    assert(cur[g].0 == prev[g].0);
                    assert(blocks[i2] == d[i2]);
                } else {
                    assert(cur[j].1[prev[j].1.len() as int] == i2);
                    assert(blocks[i2].file() == cur[j].0);
                }
            }
        }
    }
}

/// Grouping by file puts every block in exactly one group: the group of its
/// file. Each group is for a different file and holds the indices of its
/// blocks in increasing order; the groups come in the order in which their
/// files first occur.
pub proof fn law_grouping<B: ResultBlock>(blocks: Seq<B>)
    ensures
        forall|g: int, k: int|
            0 <= g < group_by_path(blocks).len() && 0 <= k < group_by_path(blocks)[g].1.len() ==> {
                let b = #[trigger] group_by_path(blocks)[g].1[k];
                0 <= b < blocks.len() && blocks[b].file() == group_by_path(blocks)[g].0
            },
        forall|g1: int, g2: int|
            0 <= g1 < g2 < group_by_path(blocks).len() ==> (#[trigger] group_by_path(blocks)[g1]).0
                != (#[trigger] group_by_path(blocks)[g2]).0,
        forall|i: int| 0 <= i < blocks.len() ==> #[trigger] in_group_of_file(blocks, group_by_path(blocks), i),
        forall|g: int, k1: int, k2: int|
            0 <= g < group_by_path(blocks).len() && 0 <= k1 < k2 < group_by_path(blocks)[g].1.len()
                ==> #[trigger] group_by_path(blocks)[g].1[k1] < #[trigger] group_by_path(blocks)[g].1[k2],
        forall|g: int| 0 <= g < group_by_path(blocks).len() ==> (#[trigger] group_by_path(blocks)[g]).1.len() > 0,
        forall|g1: int, g2: int|
            0 <= g1 < g2 < group_by_path(blocks).len() ==> (#[trigger] group_by_path(blocks)[g1]).1[0]
                < (#[trigger] group_by_path(blocks)[g2]).1[0],
{
    lemma_grouping_members(blocks);
    lemma_grouping_cover(blocks);
}

/// Groups the blocks by file.
pub fn group_blocks<B: ResultBlock>(blocks: &[B]) -> (r: Vec<(String, Vec<usize>)>)
    ensures
        group_views(r@) == group_by_path(blocks@),
        forall|g: int, k: int|
            0 <= g < r@.len() && 0 <= k < r@[g].1@.len() ==> #[trigger] r@[g].1@[k] < blocks@.len(),
{
    let mut groups: Vec<(String, Vec<usize>)> = Vec::new();
    for i in 0..blocks.len()
        invariant
            group_views(groups@) == group_by_path(blocks@.take(i as int)),
    {
        let ghost before = group_views(groups@);
        assert(blocks@.take(i + 1).drop_last() =~= blocks@.take(i as int));
        let path = blocks[i].path_ref();
        let mut j: usize = 0;
        while j < groups.len() && !(groups[j].0 == *path)
            invariant
                0 <= j <= groups@.len(),
                before == group_views(groups@),
                group_index_from(before, path@, 0) == group_index_from(before, path@, j as int),
            decreases groups@.len() - j,
        {
            j = j + 1;
        }
        assert(group_by_path(blocks@.take(i + 1)) == group_step(
            group_by_path(blocks@.take(i as int)),
            blocks@[i as int].file(),
            i as int,
        ));
        if j < groups.len() {
            assert(group_index_from(before, path@, j as int) == j);
            let (p, mut idx) = groups.remove(j);
            let ghost old_idx = idx@.map_values(|k: usize| k as int);
            idx.push(i);
            assert(idx@.map_values(|k: usize| k as int) =~= old_idx.push(i as int));
            groups.insert(j, (p, idx));
            assert(group_views(groups@) =~= group_step(before, path@, i as int));
        } else {
            assert(group_index_from(before, path@, j as int) == -1);
            assert(seq![i].map_values(|k: usize| k as int) =~= seq![i as int]);
            let mut idx = Vec::new();
            idx.push(i);
            groups.push((path.clone(), idx));
            assert(group_views(groups@) =~= group_step(before, path@, i as int));
        }
    }
    assert(blocks@.take(blocks@.len() as int) =~= blocks@);
    proof {
        lemma_group_bounds(blocks@);
        assert forall|g: int, k: int|
            0 <= g < groups@.len() && 0 <= k < groups@[g].1@.len() implies #[trigger] groups@[g].1@[k]
            < blocks@.len() by {
            assert(group_views(groups@)[g].1[k] == groups@[g].1@[k] as int);
        }
    }
    groups
}

} // verus!
