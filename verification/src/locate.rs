//! Picking the region that shows the projected dot.
//!
//! Every region is reduced to a mark: its position on the scan line and its
//! colour. The marks are put in order of position, and the dot is looked for
//! among them: first as a white mark at the edge of the line or beside a red
//! one, then as any red mark, then as any white mark.

use crate::bucket::Bucket;
use crate::color::SimpleColor;
use vstd::prelude::*;

verus! {

/// The marks of the regions, in the order of the regions.
pub open spec fn marks(regions: Seq<Bucket>) -> Seq<(u32, SimpleColor)> {
    Seq::new(regions.len(), |i: int| (regions[i].mean_position() as u32, regions[i].simple_color))
}

/// The marks are in ascending order of position.
pub open spec fn ordered(s: Seq<(u32, SimpleColor)>) -> bool {
    forall|i: int, j: int| 0 <= i < j < s.len() ==> s[i].0 <= s[j].0
}

/// The colours of the marks at position `p`, in the order of the marks.
pub open spec fn colors_at(s: Seq<(u32, SimpleColor)>, p: u32) -> Seq<SimpleColor>
    decreases s.len(),
{
    if s.len() == 0 {
        Seq::empty()
    } else if s.last().0 == p {
        colors_at(s.drop_last(), p).push(s.last().1)
    } else {
        colors_at(s.drop_last(), p)
    }
}

/// `sorted` holds the marks of `given` in ascending order of position, and
/// marks at one position in the order in which `given` has them.
pub open spec fn in_stable_order(
    given: Seq<(u32, SimpleColor)>,
    sorted: Seq<(u32, SimpleColor)>,
) -> bool {
    &&& sorted.len() == given.len()
    &&& ordered(sorted)
    &&& forall|p: u32| #[trigger] colors_at(sorted, p) == colors_at(given, p)
}

/// The mark at `i` is white, and it is the first or the last mark or has a
/// red mark right before or right after it.
pub open spec fn flanked(s: Seq<(u32, SimpleColor)>, i: int) -> bool {
    &&& 0 <= i < s.len()
    &&& s[i].1 == SimpleColor::White
    &&& (i == 0 || s[i - 1].1 == SimpleColor::Red || i == s.len() - 1 || s[i + 1].1
        == SimpleColor::Red)
}

/// No mark is flanked.
pub open spec fn none_flanked(s: Seq<(u32, SimpleColor)>) -> bool {
    forall|j: int| 0 <= j < s.len() ==> !#[trigger] flanked(s, j)
}

/// No mark is of the colour.
pub open spec fn none_of(s: Seq<(u32, SimpleColor)>, color: SimpleColor) -> bool {
    forall|j: int| 0 <= j < s.len() ==> (#[trigger] s[j]).1 != color
}

/// The mark at `i` is the first of the colour.
pub open spec fn first_of(s: Seq<(u32, SimpleColor)>, color: SimpleColor, i: int) -> bool {
    &&& 0 <= i < s.len()
    &&& s[i].1 == color
    &&& forall|j: int| 0 <= j < i ==> (#[trigger] s[j]).1 != color
}

/// The mark at `i` is the dot: the first flanked mark; or, where none is
/// flanked, the first red mark; or, where none is red either, the first
/// white mark.
pub open spec fn is_dot(s: Seq<(u32, SimpleColor)>, i: int) -> bool {
    ||| flanked(s, i) && forall|j: int| 0 <= j < i ==> !#[trigger] flanked(s, j)
    ||| none_flanked(s) && first_of(s, SimpleColor::Red, i)
    ||| none_flanked(s) && none_of(s, SimpleColor::Red) && first_of(s, SimpleColor::White, i)
}

/// At most one mark is the dot.
pub proof fn lemma_dot_is_unique(s: Seq<(u32, SimpleColor)>, i: int, j: int)
    requires
        is_dot(s, i),
        is_dot(s, j),
    ensures
        i == j,
{
    if i < j {
        assert(flanked(s, i) || s[i].1 == SimpleColor::Red || s[i].1 == SimpleColor::White);
    } else if j < i {
        assert(flanked(s, j) || s[j].1 == SimpleColor::Red || s[j].1 == SimpleColor::White);
    }
}

/// The colours at a position, of two runs of marks put one after the other.
proof fn lemma_colors_at_concat(a: Seq<(u32, SimpleColor)>, b: Seq<(u32, SimpleColor)>, p: u32)
    ensures
        colors_at(a + b, p) == colors_at(a, p) + colors_at(b, p),
    decreases b.len(),
{
    if b.len() == 0 {
        assert(a + b =~= a);
        assert(colors_at(a, p) + colors_at(b, p) =~= colors_at(a, p));
    } else {
        assert((a + b).drop_last() =~= a + b.drop_last());
        assert((a + b).last() == b.last());
        lemma_colors_at_concat(a, b.drop_last(), p);
        if b.last().0 == p {
            assert(colors_at(a + b, p) =~= colors_at(a, p) + colors_at(b, p));
        }
    }
}

/// Where no mark is at a position, there are no colours at it.
proof fn lemma_colors_at_none(s: Seq<(u32, SimpleColor)>, p: u32)
    requires
        forall|i: int| 0 <= i < s.len() ==> (#[trigger] s[i]).0 != p,
    ensures
        colors_at(s, p) == Seq::<SimpleColor>::empty(),
    decreases s.len(),
{
    if s.len() > 0 {
        assert(s.last() == s[s.len() - 1]);
        assert forall|i: int| 0 <= i < s.drop_last().len() implies (#[trigger] s.drop_last()[i]).0
            != p by {
            assert(s.drop_last()[i] == s[i]);
        }
        lemma_colors_at_none(s.drop_last(), p);
    }
}

/// A position has colours at it exactly if some mark lies at it.
proof fn lemma_colors_at_some(s: Seq<(u32, SimpleColor)>, p: u32)
    ensures
        colors_at(s, p).len() > 0 <==> exists|i: int| 0 <= i < s.len() && (#[trigger] s[i]).0 == p,
    decreases s.len(),
{
    if s.len() > 0 {
        let rest = s.drop_last();
        lemma_colors_at_some(rest, p);
        if s.last().0 == p {
            assert(s[s.len() - 1].0 == p);
        } else if exists|i: int| 0 <= i < s.len() && (#[trigger] s[i]).0 == p {
            let i = choose|i: int| 0 <= i < s.len() && (#[trigger] s[i]).0 == p;
            assert(rest[i] == s[i]);
        } else if exists|i: int| 0 <= i < rest.len() && (#[trigger] rest[i]).0 == p {
            let i = choose|i: int| 0 <= i < rest.len() && (#[trigger] rest[i]).0 == p;
            assert(rest[i] == s[i]);
        }
    }
}

/// Marks in ascending order are told by the colours at each position.
proof fn lemma_same_colors_same_marks(a: Seq<(u32, SimpleColor)>, b: Seq<(u32, SimpleColor)>)
    requires
        a.len() == b.len(),
        ordered(a),
        ordered(b),
        forall|p: u32| #[trigger] colors_at(a, p) == colors_at(b, p),
    ensures
        a == b,
    decreases a.len(),
{
    if a.len() == 0 {
        assert(a =~= b);
    } else {
        let last = a.len() - 1;
        let pa = a[last].0;
        let pb = b[last].0;
        lemma_colors_at_some(a, pa);
        lemma_colors_at_some(b, pa);
        lemma_colors_at_some(a, pb);
        lemma_colors_at_some(b, pb);
        assert(colors_at(a, pa) == colors_at(b, pa));
        assert(colors_at(a, pb) == colors_at(b, pb));
        let i = choose|i: int| 0 <= i < b.len() && (#[trigger] b[i]).0 == pa;
        let j = choose|j: int| 0 <= j < a.len() && (#[trigger] a[j]).0 == pb;
        assert(b[i].0 <= b[last].0);
        assert(a[j].0 <= a[last].0);
        assert(pa == pb);
        assert(a.last() == a[last] && b.last() == b[last]);
        assert(colors_at(a, pa).last() == a[last].1);
        assert(colors_at(b, pa).last() == b[last].1);
        assert(a[last] == b[last]);
        let ra = a.drop_last();
        let rb = b.drop_last();
        assert forall|p: u32| #[trigger] colors_at(ra, p) == colors_at(rb, p) by {
            assert(colors_at(a, p) == colors_at(b, p));
            if p == pa {
                assert(colors_at(ra, p) =~= colors_at(a, p).drop_last());
                assert(colors_at(rb, p) =~= colors_at(b, p).drop_last());
            }
        }
        assert(ordered(ra)) by {
            assert forall|x: int, y: int| 0 <= x < y < ra.len() implies ra[x].0 <= ra[y].0 by {
                assert(ra[x] == a[x] && ra[y] == a[y]);
            }
        }
        assert(ordered(rb)) by {
            assert forall|x: int, y: int| 0 <= x < y < rb.len() implies rb[x].0 <= rb[y].0 by {
                assert(rb[x] == b[x] && rb[y] == b[y]);
            }
        }
        lemma_same_colors_same_marks(ra, rb);
        assert(a =~= ra.push(a[last]));
        assert(b =~= rb.push(b[last]));
    }
}

/// Marks have one stable order only.
pub proof fn lemma_stable_order_is_unique(
    given: Seq<(u32, SimpleColor)>,
    first: Seq<(u32, SimpleColor)>,
    second: Seq<(u32, SimpleColor)>,
)
    requires
        in_stable_order(given, first),
        in_stable_order(given, second),
    ensures
        first == second,
{
    assert forall|p: u32| #[trigger] colors_at(first, p) == colors_at(second, p) by {
        assert(colors_at(first, p) == colors_at(given, p));
        assert(colors_at(second, p) == colors_at(given, p));
    }
    lemma_same_colors_same_marks(first, second);
}

/// Putting a mark behind the marks that do not lie to its right keeps a
/// stable order.
proof fn lemma_insert_keeps_order(
    given: Seq<(u32, SimpleColor)>,
    sorted: Seq<(u32, SimpleColor)>,
    mark: (u32, SimpleColor),
    at: int,
)
    requires
        in_stable_order(given, sorted),
        0 <= at <= sorted.len(),
        forall|i: int| 0 <= i < at ==> (#[trigger] sorted[i]).0 <= mark.0,
        forall|i: int| at <= i < sorted.len() ==> (#[trigger] sorted[i]).0 > mark.0,
    ensures
        in_stable_order(given.push(mark), sorted.insert(at, mark)),
{
    let longer = sorted.insert(at, mark);
    let head = sorted.subrange(0, at);
    let tail = sorted.subrange(at, sorted.len() as int);
    assert(sorted =~= head + tail);
    assert(longer =~= head + seq![mark] + tail);
    assert(given.push(mark).drop_last() =~= given);
    assert forall|p: u32| #[trigger] colors_at(longer, p) == colors_at(given.push(mark), p) by {
        lemma_colors_at_concat(head, tail, p);
        lemma_colors_at_concat(head + seq![mark], tail, p);
        lemma_colors_at_concat(head, seq![mark], p);
        assert(colors_at(sorted, p) == colors_at(given, p));
        assert(seq![mark].drop_last() =~= Seq::<(u32, SimpleColor)>::empty());
        assert(colors_at(seq![mark].drop_last(), p) =~= Seq::<SimpleColor>::empty());
        if mark.0 == p {
            lemma_colors_at_none(tail, p);
            assert(colors_at(seq![mark], p) =~= seq![mark.1]);
            assert(colors_at(longer, p) =~= colors_at(given, p).push(mark.1));
        } else {
            assert(colors_at(seq![mark], p) =~= Seq::<SimpleColor>::empty());
            assert(colors_at(longer, p) =~= colors_at(given, p));
        }
    }
}

/// Puts marks in ascending order of position. Marks at one position keep
/// the order in which they came.
pub fn sort_by_position(given: &Vec<(u32, SimpleColor)>) -> (sorted: Vec<(u32, SimpleColor)>)
    ensures
        in_stable_order(given@, sorted@),
{
    let mut sorted: Vec<(u32, SimpleColor)> = Vec::new();
    let mut n: usize = 0;
    proof {
        assert(given@.take(0) =~= Seq::<(u32, SimpleColor)>::empty());
    }
    while n < given.len()
        invariant
            n <= given.len(),
            in_stable_order(given@.take(n as int), sorted@),
        decreases given.len() - n,
    {
        let mark = given[n];
        let mut at: usize = sorted.len();
        while at > 0 && sorted[at - 1].0 > mark.0
            invariant
                at <= sorted.len(),
                ordered(sorted@),
                forall|i: int| at <= i < sorted.len() ==> (#[trigger] sorted@[i]).0 > mark.0,
            decreases at,
        {
            at = at - 1;
        }
        proof {
            assert forall|i: int| 0 <= i < at implies (#[trigger] sorted@[i]).0 <= mark.0 by {
                assert(sorted@[i].0 <= sorted@[at - 1].0);
            }
            lemma_insert_keeps_order(given@.take(n as int), sorted@, mark, at as int);
            assert(given@.take(n as int).push(mark) =~= given@.take(n + 1));
        }
        sorted.insert(at, mark);
        n = n + 1;
    }
    proof {
        assert(given@.take(n as int) =~= given@);
    }
    sorted
}

/// The marks of the regions, in ascending order of position.
pub fn color_positions(regions: &Vec<Bucket>) -> (sorted: Vec<(u32, SimpleColor)>)
    ensures
        in_stable_order(marks(regions@), sorted@),
{
    let mut given: Vec<(u32, SimpleColor)> = Vec::new();
    let mut n: usize = 0;
    while n < regions.len()
        invariant
            n <= regions.len(),
            given@ == marks(regions@).take(n as int),
        decreases regions.len() - n,
    {
        let position = regions[n].centroid();
        given.push((position, regions[n].simple_color));
        proof {
            assert(given@ =~= marks(regions@).take(n + 1));
        }
        n = n + 1;
    }
    proof {
        assert(marks(regions@).take(n as int) =~= marks(regions@));
    }
    sort_by_position(&given)
}

/// Looks for the dot among marks in order of position, and returns its
/// position.
pub fn find_dot(s: &Vec<(u32, SimpleColor)>) -> (result: Option<u32>)
    ensures
        match result {
            Some(p) => exists|i: int| is_dot(s@, i) && (#[trigger] s@[i]).0 == p,
            None => forall|i: int| 0 <= i < s.len() ==> (#[trigger] s@[i]).1 == SimpleColor::Other,
        },
{
    let len = s.len();
    let mut i: usize = 0;
    while i < len
        invariant
            i <= len,
            len == s.len(),
            forall|j: int| 0 <= j < i ==> !#[trigger] flanked(s@, j),
        decreases len - i,
    {
        if s[i].1 == SimpleColor::White && (i == 0 || s[i - 1].1 == SimpleColor::Red || i == len
            - 1 || s[i + 1].1 == SimpleColor::Red) {
            assert(is_dot(s@, i as int));
            return Some(s[i].0);
        }
        i = i + 1;
    }
    i = 0;
    while i < len
        invariant
            i <= len,
            len == s.len(),
            none_flanked(s@),
            forall|j: int| 0 <= j < i ==> (#[trigger] s@[j]).1 != SimpleColor::Red,
        decreases len - i,
    {
        if s[i].1 == SimpleColor::Red {
            assert(is_dot(s@, i as int));
            return Some(s[i].0);
        }
        i = i + 1;
    }
    i = 0;
    while i < len
        invariant
            i <= len,
            len == s.len(),
            none_flanked(s@),
            none_of(s@, SimpleColor::Red),
            forall|j: int| 0 <= j < i ==> (#[trigger] s@[j]).1 != SimpleColor::White,
        decreases len - i,
    {
        if s[i].1 == SimpleColor::White {
            assert(is_dot(s@, i as int));
            return Some(s[i].0);
        }
        i = i + 1;
    }
    None
}

/// Looks for the dot among regions, and returns its position.
pub fn locate_dot(regions: &Vec<Bucket>) -> (result: Option<u32>)
    ensures
        exists|sorted: Seq<(u32, SimpleColor)>|
            #![trigger in_stable_order(marks(regions@), sorted)]
            {
                &&& in_stable_order(marks(regions@), sorted)
                &&& match result {
                    Some(p) => exists|i: int| is_dot(sorted, i) && (#[trigger] sorted[i]).0 == p,
                    None => forall|i: int|
                        0 <= i < sorted.len() ==> (#[trigger] sorted[i]).1 == SimpleColor::Other,
                }
            },
{
    let sorted = color_positions(regions);
    find_dot(&sorted)
}

} // verus!
