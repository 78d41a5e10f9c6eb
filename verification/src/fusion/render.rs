//! The picture of a fusion tree as text.
//!
//! The first row holds the names of the anyons, the second a rail for each
//! of them. Then comes one row for each level: a rail under each anyon that
//! is still there, and a bar from the first anyon to the second of each pair
//! that fuses at that level. The last row holds a rail for each anyon that
//! is left when all levels are done. Each anyon takes two columns, one for
//! its rail and one for the gap to its right neighbour.

use crate::fusion::fusion::FusionPair;
use crate::fusion::legality::flags;
use crate::fusion::tree::{in_range, level_views, levels_in_range};
use crate::model::anyon::Anyon;
use vstd::prelude::*;
use vstd::string::StringExecFns;

verus! {

/// The names of the anyons.
pub open spec fn names_of(anyons: Seq<Anyon>) -> Seq<Seq<char>> {
    Seq::new(anyons.len(), |i: int| anyons[i]@.name)
}

/// No pair of the first `upto` levels has fused anyon `i` away.
pub open spec fn active(levels: Seq<(u32, Seq<FusionPair>)>, upto: int, i: int) -> bool {
    forall|j: int, k: int|
        0 <= j < upto && j < levels.len() && 0 <= k < levels[j].1.len() ==> (
        #[trigger] levels[j].1[k]).anyon_2 != i
}

/// Anyon `i` lies between the two anyons of one of the pairs.
pub open spec fn bridged(pairs: Seq<FusionPair>, i: int) -> bool {
    exists|k: int| 0 <= k < pairs.len() && (#[trigger] pairs[k]).anyon_1 < i < pairs[k].anyon_2
}

/// The gap to the right of anyon `i` lies between the two anyons of one of
/// the pairs.
pub open spec fn joined(pairs: Seq<FusionPair>, i: int) -> bool {
    exists|k: int| 0 <= k < pairs.len() && (#[trigger] pairs[k]).anyon_1 <= i < pairs[k].anyon_2
}

/// For each of `count` anyons, whether it is still there after the first
/// `upto` levels.
pub open spec fn active_flags(count: nat, levels: Seq<(u32, Seq<FusionPair>)>, upto: int) -> Seq<
    bool,
> {
    Seq::new(count, |i: int| active(levels, upto, i))
}

/// For each of `count` anyons, whether a bar crosses its column.
pub open spec fn bridged_flags(count: nat, pairs: Seq<FusionPair>) -> Seq<bool> {
    Seq::new(count, |i: int| bridged(pairs, i))
}

/// For each of `count` anyons, whether a bar crosses the gap to its right.
pub open spec fn joined_flags(count: nat, pairs: Seq<FusionPair>) -> Seq<bool> {
    Seq::new(count, |i: int| joined(pairs, i))
}

/// The row of names: each name and a blank after it.
pub open spec fn names_row(names: Seq<Seq<char>>) -> Seq<char>
    decreases names.len(),
{
    if names.len() == 0 {
        Seq::empty()
    } else {
        names_row(names.drop_last()) + names.last() + seq![' ']
    }
}

/// A row of rails: a rail and a blank for an anyon that is there, two
/// blanks for one that is not.
pub open spec fn rails(there: Seq<bool>) -> Seq<char>
    decreases there.len(),
{
    if there.len() == 0 {
        Seq::empty()
    } else if there.last() {
        rails(there.drop_last()) + seq!['|', ' ']
    } else {
        rails(there.drop_last()) + seq![' ', ' ']
    }
}

/// What stands in the column of an anyon in the row of a level.
pub open spec fn column(there: bool, crossed: bool) -> char {
    if crossed {
        '─'
    } else if there {
        '|'
    } else {
        ' '
    }
}

/// What stands in the gap to the right of an anyon in the row of a level.
pub open spec fn gap(crossed: bool) -> char {
    if crossed {
        '─'
    } else {
        ' '
    }
}

/// The row of a level, for the first `upto` anyons.
pub open spec fn level_row(there: Seq<bool>, across: Seq<bool>, between: Seq<bool>, upto: int) -> Seq<
    char,
>
    decreases upto,
{
    if upto <= 0 {
        Seq::empty()
    } else {
        level_row(there, across, between, upto - 1) + seq![
            column(there[upto - 1], across[upto - 1]),
            gap(between[upto - 1]),
        ]
    }
}

/// The rows of the first `upto` levels, each with a line break after it.
pub open spec fn level_rows(count: nat, levels: Seq<(u32, Seq<FusionPair>)>, upto: int) -> Seq<char>
    decreases upto,
{
    if upto <= 0 {
        Seq::empty()
    } else {
        level_rows(count, levels, upto - 1) + level_row(
            active_flags(count, levels, upto - 1),
            bridged_flags(count, levels[upto - 1].1),
            joined_flags(count, levels[upto - 1].1),
            count as int,
        ) + seq!['\n']
    }
}

/// The picture of the tree of the anyons with the names `names` and the
/// levels `levels`.
pub open spec fn tree_text(names: Seq<Seq<char>>, levels: Seq<(u32, Seq<FusionPair>)>) -> Seq<char> {
    names_row(names) + seq!['\n'] + rails(active_flags(names.len(), levels, 0)) + seq!['\n']
        + level_rows(names.len(), levels, levels.len() as int) + rails(
        active_flags(names.len(), levels, levels.len() as int),
    )
}

/// One more pair crosses the columns between its anyons and nothing else.
proof fn lemma_bridged_push(pairs: Seq<FusionPair>, pair: FusionPair, i: int)
    ensures
        bridged(pairs.push(pair), i) <==> bridged(pairs, i) || pair.anyon_1 < i < pair.anyon_2,
{
    let longer = pairs.push(pair);
    if bridged(pairs, i) {
        let k = choose|k: int|
            0 <= k < pairs.len() && (#[trigger] pairs[k]).anyon_1 < i < pairs[k].anyon_2;
        assert(longer[k] == pairs[k]);
    }
    if pair.anyon_1 < i < pair.anyon_2 {
        assert(longer[pairs.len() as int] == pair);
    }
    if bridged(longer, i) {
        let k = choose|k: int|
            0 <= k < longer.len() && (#[trigger] longer[k]).anyon_1 < i < longer[k].anyon_2;
        if k < pairs.len() {
            assert(longer[k] == pairs[k]);
        }
    }
}

/// One more pair crosses the gaps from its first anyon to its second and
/// nothing else.
proof fn lemma_joined_push(pairs: Seq<FusionPair>, pair: FusionPair, i: int)
    ensures
        joined(pairs.push(pair), i) <==> joined(pairs, i) || pair.anyon_1 <= i < pair.anyon_2,
{
    let longer = pairs.push(pair);
    if joined(pairs, i) {
        let k = choose|k: int|
            0 <= k < pairs.len() && (#[trigger] pairs[k]).anyon_1 <= i < pairs[k].anyon_2;
        assert(longer[k] == pairs[k]);
    }
    if pair.anyon_1 <= i < pair.anyon_2 {
        assert(longer[pairs.len() as int] == pair);
    }
    if joined(longer, i) {
        let k = choose|k: int|
            0 <= k < longer.len() && (#[trigger] longer[k]).anyon_1 <= i < longer[k].anyon_2;
        if k < pairs.len() {
            assert(longer[k] == pairs[k]);
        }
    }
}

/// For each of `count` anyons, whether a bar of `pairs` crosses its column,
/// and whether one crosses the gap to its right.
fn crossings(count: usize, pairs: &Vec<FusionPair>) -> (crossed: (Vec<bool>, Vec<bool>))
    requires
        in_range(count as int, pairs@),
    ensures
        crossed.0@ == bridged_flags(count as nat, pairs@),
        crossed.1@ == joined_flags(count as nat, pairs@),
{
    let mut across = flags(count, false);
    let mut between = flags(count, false);
    let mut k: usize = 0;
    assert(pairs@.take(0).len() == 0);
    while k < pairs.len()
        invariant
            k <= pairs.len(),
            in_range(count as int, pairs@),
            across.len() == count,
            between.len() == count,
            forall|i: int| 0 <= i < count ==> across[i] == bridged(pairs@.take(k as int), i),
            forall|i: int| 0 <= i < count ==> between[i] == joined(pairs@.take(k as int), i),
        decreases pairs.len() - k,
    {
        let pair = pairs[k];
        let ghost done = pairs@.take(k as int);
        let mut i: usize = pair.anyon_1;
        while i < pair.anyon_2
            invariant
                pair.anyon_1 <= i <= pair.anyon_2 < count,
                across.len() == count,
                between.len() == count,
                forall|c: int|
                    0 <= c < count ==> across[c] == (bridged(done, c) || pair.anyon_1 < c < i),
                forall|c: int|
                    0 <= c < count ==> between[c] == (joined(done, c) || pair.anyon_1 <= c < i),
            decreases pair.anyon_2 - i,
        {
            between.set(i, true);
            if i > pair.anyon_1 {
                across.set(i, true);
            }
            i += 1;
        }
        proof {
            let more = pairs@.take(k as int + 1);
            assert(more == done.push(pair));
            assert forall|c: int| 0 <= c < count implies across[c] == bridged(more, c) by {
                lemma_bridged_push(done, pair, c);
                assert(across[c] == (bridged(done, c) || pair.anyon_1 < c < pair.anyon_2));
            }
            assert forall|c: int| 0 <= c < count implies between[c] == joined(more, c) by {
                lemma_joined_push(done, pair, c);
                assert(between[c] == (joined(done, c) || pair.anyon_1 <= c < pair.anyon_2));
            }
        }
        k += 1;
    }
    proof {
        assert(pairs@.take(pairs.len() as int) == pairs@);
        assert(across@ =~= bridged_flags(count as nat, pairs@));
        assert(between@ =~= joined_flags(count as nat, pairs@));
    }
    (across, between)
}

/// Writes a row of rails.
fn write_rails(text: &mut String, there: &Vec<bool>)
    ensures
        final(text)@ == old(text)@ + rails(there@),
{
    let ghost start = text@;
    let mut i: usize = 0;
    assert(there@.take(0) =~= Seq::<bool>::empty());
    while i < there.len()
        invariant
            i <= there.len(),
            text@ == start + rails(there@.take(i as int)),
        decreases there.len() - i,
    {
        proof {
            reveal_strlit("| ");
            reveal_strlit("  ");
            let longer = there@.take(i as int + 1);
            assert(longer.drop_last() == there@.take(i as int));
            assert(longer.last() == there@[i as int]);
            assert("| "@ =~= seq!['|', ' ']);
            assert("  "@ =~= seq![' ', ' ']);
        }
        if there[i] {
            text.append("| ");
        } else {
            text.append("  ");
        }
        assert(text@ =~= start + rails(there@.take(i as int + 1)));
        i += 1;
    }
    assert(there@.take(there.len() as int) == there@);
}

/// Writes the row of a level.
fn write_level_row(text: &mut String, there: &Vec<bool>, across: &Vec<bool>, between: &Vec<bool>)
    requires
        across.len() == there.len(),
        between.len() == there.len(),
    ensures
        final(text)@ == old(text)@ + level_row(there@, across@, between@, there.len() as int),
{
    let ghost start = text@;
    let mut i: usize = 0;
    while i < there.len()
        invariant
            i <= there.len(),
            across.len() == there.len(),
            between.len() == there.len(),
            text@ == start + level_row(there@, across@, between@, i as int),
        decreases there.len() - i,
    {
        proof {
            reveal_strlit("─");
            reveal_strlit("|");
            reveal_strlit(" ");
            assert("─"@ =~= seq!['─']);
            assert("|"@ =~= seq!['|']);
            assert(" "@ =~= seq![' ']);
        }
        if across[i] {
            text.append("─");
        } else if there[i] {
            text.append("|");
        } else {
            text.append(" ");
        }
        if between[i] {
            text.append("─");
        } else {
            text.append(" ");
        }
        assert(text@ =~= start + level_row(there@, across@, between@, i as int + 1));
        i += 1;
    }
}

/// The picture of the tree of `anyons` with the levels `levels`.
pub fn render(anyons: &Vec<Anyon>, levels: &Vec<(u32, Vec<FusionPair>)>) -> (text: String)
    requires
        levels_in_range(anyons.len() as int, level_views(levels@)),
    ensures
        text@ == tree_text(names_of(anyons@), level_views(levels@)),
{
    let count: usize = anyons.len();
    let ghost names = names_of(anyons@);
    let ghost views = level_views(levels@);
    let mut text = String::new();
    let mut i: usize = 0;
    assert(names.take(0) =~= Seq::<Seq<char>>::empty());
    while i < count
        invariant
            i <= count == anyons.len(),
            names == names_of(anyons@),
            text@ == names_row(names.take(i as int)),
        decreases count - i,
    {
        proof {
            reveal_strlit(" ");
            assert(" "@ =~= seq![' ']);
            let longer = names.take(i as int + 1);
            assert(longer.drop_last() == names.take(i as int));
            assert(longer.last() == anyons@[i as int]@.name);
        }
        text.append(anyons[i].name());
        text.append(" ");
        i += 1;
    }
    proof {
        assert(names.take(count as int) == names);
        reveal_strlit("\n");
        assert("\n"@ =~= seq!['\n']);
    }
    text.append("\n");
    let mut there = flags(count, true);
    assert(there@ =~= active_flags(count as nat, views, 0));
    write_rails(&mut text, &there);
    text.append("\n");
    let ghost top = text@;
    let mut j: usize = 0;
    while j < levels.len()
        invariant
            j <= levels.len(),
            count == anyons.len(),
            names == names_of(anyons@),
            views == level_views(levels@),
            levels_in_range(count as int, views),
            there@ == active_flags(count as nat, views, j as int),
            text@ == top + level_rows(count as nat, views, j as int),
        decreases levels.len() - j,
    {
        assert(views[j as int].1 == levels@[j as int].1@);
        assert(in_range(count as int, views[j as int].1));
        let crossed = crossings(count, &levels[j].1);
        write_level_row(&mut text, &there, &crossed.0, &crossed.1);
        proof {
            reveal_strlit("\n");
            assert("\n"@ =~= seq!['\n']);
        }
        text.append("\n");
        let mut k: usize = 0;
        while k < levels[j].1.len()
            invariant
                j < levels.len(),
                k <= levels@[j as int].1.len(),
                views == level_views(levels@),
                in_range(count as int, views[j as int].1),
                views[j as int].1 == levels@[j as int].1@,
                there.len() == count,
                forall|i: int|
                    0 <= i < count ==> there[i] == (active(views, j as int, i) && forall|c: int|
                        0 <= c < k ==> (#[trigger] views[j as int].1[c]).anyon_2 != i),
            decreases levels@[j as int].1.len() - k,
        {
            let second: usize = levels[j].1[k].anyon_2;
            assert(views[j as int].1[k as int].anyon_2 == second);
            there.set(second, false);
            k += 1;
        }
        proof {
            assert forall|i: int| 0 <= i < count implies there[i] == active(
                views,
                j as int + 1,
                i,
            ) by {
                if there[i] {
                    assert forall|a: int, b: int|
                        0 <= a < j as int + 1 && a < views.len() && 0 <= b < views[a].1.len()
                        implies (#[trigger] views[a].1[b]).anyon_2 != i by {
                        if a == j {
                        } else {
                        }
                    }
                } else {
                    if active(views, j as int, i) {
                        let c = choose|c: int|
                            0 <= c < views[j as int].1.len() && (#[trigger] views[j as int].1[c]).anyon_2
                                == i;
                        assert(views[j as int].1[c].anyon_2 == i);
                    }
                }
            }
            assert(there@ =~= active_flags(count as nat, views, j as int + 1));
        }
        j += 1;
    }
    write_rails(&mut text, &there);
    assert(text@ =~= tree_text(names, views));
    text
}

} // verus!
