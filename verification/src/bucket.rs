//! Regions of a scan line under assembly.
//!
//! A region collects the numbers of the blocks folded into it, the pixel
//! columns that belong to it, and the highest ranked colour class seen among
//! those columns.

use crate::color::{adjacent_bucket, neighbours, SimpleColor};
use std::collections::BTreeSet;
use vstd::prelude::*;
use vstd::std_specs::iter::IteratorSpec;

verus! {

/// The values among the first `n` items of a walk over a set.
spec fn yielded(items: Seq<u32>, n: int) -> Set<u32> {
    Set::new(|x: u32| exists|i: int| 0 <= i < n && #[trigger] items[i] == x)
}

/// The sum of the members of a finite set of pixel columns.
pub open spec fn position_sum(points: Set<u32>) -> int {
    points.fold(0int, |acc: int, p: u32| acc + p)
}

/// The items that a walk over an ordered set yields, in the order of the walk.
spec fn walk_of(set: &BTreeSet<u32>) -> Seq<u32> {
    vstd::std_specs::btree::into_iter_btree_keys(
        vstd::std_specs::btree::spec_btree_keys_iter(set),
    )
}

/// A walk over an ordered set yields strictly ascending values.
proof fn lemma_walk_ascends(walk: Seq<&u32>, items: Seq<u32>)
    requires
        vstd::std_specs::btree::increasing_seq(walk),
        walk.unref() == items,
    ensures
        forall|i: int, j: int| 0 <= i < j < items.len() ==> items[i] < items[j],
{
    broadcast use vstd::laws_cmp::group_laws_cmp, vstd::laws_cmp::lemma_ref_obeys_cmp_spec;

    vstd::std_specs::btree::axiom_increasing_seq_meaning(walk);
    assert forall|i: int, j: int| 0 <= i < j < items.len() implies items[i] < items[j] by {
        assert(vstd::std_specs::cmp::OrdSpec::cmp_spec(&walk[i], &walk[j]) is Less);
        assert(items[i] == *walk[i]);
        assert(items[j] == *walk[j]);
    }
}

/// Yielding one more item adds exactly that item, which is new.
proof fn lemma_yielded_step(items: Seq<u32>, n: int)
    requires
        0 <= n < items.len(),
        forall|i: int, j: int| 0 <= i < j < items.len() ==> items[i] < items[j],
    ensures
        yielded(items, n + 1) == yielded(items, n).insert(items[n]),
        !yielded(items, n).contains(items[n]),
        yielded(items, n).finite(),
        yielded(items, 0) == Set::<u32>::empty(),
    decreases n,
{
    assert(yielded(items, n + 1) =~= yielded(items, n).insert(items[n]));
    assert(yielded(items, 0) =~= Set::<u32>::empty());
    if n > 0 {
        lemma_yielded_step(items, n - 1);
    }
}

/// Once a walk is over, it has yielded the whole set.
proof fn lemma_yielded_all(items: Seq<u32>)
    ensures
        yielded(items, items.len() as int) == items.to_set(),
{
    assert(yielded(items, items.len() as int) =~= items.to_set());
}

/// A region of the scan line.
#[derive(Debug, Clone)]
pub struct Bucket {
    /// Numbers of the blocks folded into the region.
    pub keys: BTreeSet<u32>,
    /// Pixel columns that belong to the region.
    pub points: BTreeSet<u32>,
    /// The highest ranked class among the columns folded in.
    pub simple_color: SimpleColor,
}

impl Bucket {
    /// Two regions touch when they are of one colour and some block of the
    /// one is a neighbour of some block of the other.
    pub open spec fn touches(&self, other: &Bucket) -> bool {
        &&& self.simple_color == other.simple_color
        &&& exists|a: u32, b: u32|
            #![trigger self.keys@.contains(a), other.keys@.contains(b)]
            self.keys@.contains(a) && other.keys@.contains(b) && neighbours(a as int, b as int)
    }

    /// The mean of the region's columns, rounded down; 0 for a region
    /// without columns.
    pub open spec fn mean_position(&self) -> int {
        if self.points@.len() == 0 {
            0
        } else {
            position_sum(self.points@) / (self.points@.len() as int)
        }
    }

    /// An empty region of the lowest ranked colour.
    pub fn new() -> (result: Bucket)
        ensures
            result.keys@ == Set::<u32>::empty(),
            result.points@ == Set::<u32>::empty(),
            result.simple_color == SimpleColor::Other,
    {
        Bucket { keys: BTreeSet::new(), points: BTreeSet::new(), simple_color: SimpleColor::Other }
    }

    /// The smallest block number of the region, by which the region is known.
    pub fn main_key(&self) -> (result: u32)
        requires
            !self.keys@.is_empty(),
        ensures
            self.keys@.contains(result),
            forall|k: u32| self.keys@.contains(k) ==> result <= k,
    {
        let ghost items = walk_of(&self.keys);
        for k in walk: self.keys.iter()
            invariant
                walk.index() == 0,
                walk.seq().unref() == items,
                items.to_set() == self.keys@,
                vstd::std_specs::btree::increasing_seq(walk.seq()),
        {
            proof {
                lemma_walk_ascends(walk.seq(), items);
                assert(items[0] == *k);
                assert(items.contains(*k));
            }
            return *k;
        }
        proof {
            assert(items.to_set() =~= Set::<u32>::empty());
        }
        0
    }

    /// Folds one column into the region: its block, its position and its
    /// colour class.
    pub fn insert(&mut self, key: u32, point: u32, simple_color: SimpleColor)
        ensures
            final(self).keys@ == old(self).keys@.insert(key),
            final(self).points@ == old(self).points@.insert(point),
            final(self).simple_color == old(self).simple_color.dominant(simple_color),
    {
        self.keys.insert(key);
        self.points.insert(point);
        self.simple_color = self.simple_color.max(simple_color);
    }

    /// Joins two regions. The result holds the blocks and columns of both and
    /// keeps the colour of `self`; `other` is left without blocks and columns.
    pub fn merge(self, other: &mut Bucket) -> (result: Bucket)
        ensures
            result.keys@ == self.keys@.union(old(other).keys@),
            result.points@ == self.points@.union(old(other).points@),
            result.simple_color == self.simple_color,
            final(other).keys@ == Set::<u32>::empty(),
            final(other).points@ == Set::<u32>::empty(),
            final(other).simple_color == old(other).simple_color,
    {
        let mut keys = self.keys;
        let mut points = self.points;
        let ghost keys_before = keys@;
        let ghost points_before = points@;
        let ghost key_items = walk_of(&other.keys);
        let ghost mut seen: int = 0;
        for k in walk: other.keys.iter()
            invariant
                walk.seq().unref() == key_items,
                walk.index() == seen,
                key_items.to_set() == other.keys@,
                keys@ == keys_before.union(yielded(key_items, seen)),
                points@ == points_before,
        {
            keys.insert(*k);
            proof {
                assert(key_items[seen] == *k);
                assert(yielded(key_items, seen + 1) =~= yielded(key_items, seen).insert(*k));
                assert(keys@ =~= keys_before.union(yielded(key_items, seen + 1)));
                seen = seen + 1;
            }
        }
        proof {
            lemma_yielded_all(key_items);
        }
        let ghost point_items = walk_of(&other.points);
        proof {
            seen = 0;
        }
        for p in walk: other.points.iter()
            invariant
                walk.seq().unref() == point_items,
                walk.index() == seen,
                point_items.to_set() == other.points@,
                points@ == points_before.union(yielded(point_items, seen)),
                keys@ == keys_before.union(other.keys@),
        {
            points.insert(*p);
            proof {
                assert(point_items[seen] == *p);
                assert(yielded(point_items, seen + 1) =~= yielded(point_items, seen).insert(*p));
                assert(points@ =~= points_before.union(yielded(point_items, seen + 1)));
                seen = seen + 1;
            }
        }
        proof {
            lemma_yielded_all(point_items);
        }
        other.keys.clear();
        other.points.clear();
        Bucket { keys, points, simple_color: self.simple_color }
    }

    /// Tells whether two regions touch, so that they belong together.
    pub fn adjacent(&self, other: &Bucket) -> (result: bool)
        ensures
            result == self.touches(other),
    {
        let ghost mine = walk_of(&self.keys);
        let ghost theirs = walk_of(&other.keys);
        let ghost mut seen: int = 0;
        for i in outer: self.keys.iter()
            invariant
                0 <= seen <= mine.len(),
                outer.seq().unref() == mine,
                outer.index() == seen,
                mine.to_set() == self.keys@,
                theirs == walk_of(&other.keys),
                forall|x: int, b: u32|
                    #![trigger mine[x], other.keys@.contains(b)]
                    0 <= x < seen && other.keys@.contains(b) ==> !(self.simple_color
                        == other.simple_color && neighbours(mine[x] as int, b as int)),
        {
            let ghost mut met: int = 0;
            for j in inner: other.keys.iter()
                invariant
                    inner.seq().unref() == theirs,
                    inner.index() == met,
                    theirs.to_set() == other.keys@,
                    mine.to_set() == self.keys@,
                    0 <= seen < mine.len(),
                    *i == mine[seen],
                    forall|y: int|
                        0 <= y < met ==> !(self.simple_color == other.simple_color && neighbours(
                            *i as int,
                            #[trigger] theirs[y] as int,
                        )),
            {
                if adjacent_bucket(*i, *j) && self.simple_color == other.simple_color {
                    proof {
                        assert(theirs[met] == *j);
                        assert(mine.contains(*i) && theirs.contains(*j));
                        assert(self.keys@.contains(*i) && other.keys@.contains(*j));
                    }
                    return true;
                }
                proof {
                    assert(theirs[met] == *j);
                    met = met + 1;
                }
            }
            proof {
                assert forall|b: u32| other.keys@.contains(b) implies !(self.simple_color
                    == other.simple_color && neighbours(*i as int, b as int)) by {
                    assert(theirs.contains(b));
                    let y = choose|y: int| 0 <= y < theirs.len() && theirs[y] == b;
                    assert(theirs[y] == b);
                }
                seen = seen + 1;
            }
        }
        proof {
            if self.touches(other) {
                let (a, b) = choose|a: u32, b: u32|
                    #![trigger self.keys@.contains(a), other.keys@.contains(b)]
                    self.keys@.contains(a) && other.keys@.contains(b) && neighbours(
                        a as int,
                        b as int,
                    );
                assert(mine.contains(a));
                let x = choose|x: int| 0 <= x < mine.len() && mine[x] == a;
                assert(mine[x] == a);
            }
        }
        false
    }

    /// The region's position on the scan line: the mean of its columns,
    /// rounded down.
    pub fn centroid(&self) -> (result: u32)
        ensures
            result == self.mean_position(),
    {
        let count = self.points.len();
        if count == 0 {
            return 0;
        }
        let mut sum: u128 = 0;
        let ghost items = walk_of(&self.points);
        let ghost mut seen: int = 0;
        proof {
            assert(yielded(items, 0) =~= Set::<u32>::empty());
            vstd::set::fold::lemma_fold_empty(0int, |acc: int, p: u32| acc + p);
        }
        for p in walk: self.points.iter()
            invariant
                walk.seq().unref() == items,
                walk.index() == seen,
                items.to_set() == self.points@,
                items.len() == self.points@.len(),
                self.points@.len() == count,
                vstd::std_specs::btree::increasing_seq(walk.seq()),
                sum == position_sum(yielded(items, seen)),
                sum <= seen * 0xffff_ffff,
        {
            proof {
                lemma_walk_ascends(walk.seq(), items);
                lemma_yielded_step(items, seen);
                assert(items[seen] == *p);
                assert(vstd::set::fold::is_fun_commutative(|acc: int, p: u32| acc + p));
                vstd::set::fold::lemma_fold_insert(
                    yielded(items, seen),
                    0int,
                    |acc: int, p: u32| acc + p,
                    *p,
                );
                seen = seen + 1;
            }
            sum = sum + *p as u128;
        }
        proof {
            lemma_yielded_all(items);
            assert(sum / (count as u128) <= 0xffff_ffff) by (nonlinear_arith)
                requires
                    sum <= count * 0xffff_ffff,
                    count > 0,
            ;
        }
        (sum / count as u128) as u32
    }
}

} // verus!
