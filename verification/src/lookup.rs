//! The calibration table: from a pixel position to a distance.
//!
//! The table has one slot per pixel position. A few slots hold measured
//! distances; `fill` links every other slot to the nearest measured slots on
//! either side, and `dist` interpolates linearly between the two.
//!
//! Distances are whole numbers of a unit that the caller chooses. An
//! interpolated distance is kept as an exact fraction.

use vstd::prelude::*;

verus! {

/// One slot of the table.
#[derive(Debug, Clone, Copy, PartialEq, Eq)]
pub enum Lookup {
    /// A measured distance.
    Exact(i64),
    /// The positions of the nearest measured slots to the left and to the
    /// right; `None` where there is none on that side, or none is known yet.
    Mid(Option<usize>, Option<usize>),
    /// Nothing is known about the slot.
    Blank,
}

/// What the table says about a position.
#[derive(Debug, Clone, Copy, PartialEq, Eq)]
pub enum Distance {
    /// The distance measured at the position itself.
    Exact(i64),
    /// The distance `numerator / denominator`, interpolated between the
    /// nearest measured positions on either side.
    Interpolated { numerator: i128, denominator: usize },
    /// The position lies outside the calibrated span: no distance is known.
    OutOfRange,
}

/// The nearest measured slot strictly to the left of `j`, if there is one.
pub open spec fn exact_before(s: Seq<Lookup>, j: int) -> Option<int>
    decreases j,
{
    if j <= 0 {
        None
    } else if s[j - 1] is Exact {
        Some(j - 1)
    } else {
        exact_before(s, j - 1)
    }
}

/// The nearest measured slot strictly to the right of `j`, if there is one.
pub open spec fn exact_after(s: Seq<Lookup>, j: int) -> Option<int>
    decreases s.len() - j,
{
    if j + 1 >= s.len() {
        None
    } else if s[j + 1] is Exact {
        Some(j + 1)
    } else {
        exact_after(s, j + 1)
    }
}

/// A position of the model as a bound of a slot.
pub open spec fn bound(position: Option<int>) -> Option<usize> {
    match position {
        Some(i) => Some(i as usize),
        None => None,
    }
}

/// Slot `j` after the left-to-right sweep: a blank slot with a measured slot
/// to its left is linked to the nearest of them.
spec fn swept_slot(s: Seq<Lookup>, j: int) -> Lookup {
    match s[j] {
        Lookup::Blank => match exact_before(s, j) {
            Some(a) => Lookup::Mid(Some(a as usize), None),
            None => Lookup::Blank,
        },
        slot => slot,
    }
}

/// Slot `j` after both sweeps. A measured slot stays as it is. A blank slot
/// is linked to the nearest measured slot on each side, and stays blank
/// where there is none on either side. A slot that was linked before keeps
/// its left bound, and its right bound too unless a measured slot lies to
/// its right, which then becomes its right bound.
pub open spec fn filled_slot(s: Seq<Lookup>, j: int) -> Lookup {
    match s[j] {
        Lookup::Exact(d) => Lookup::Exact(d),
        Lookup::Blank => if exact_before(s, j) is None && exact_after(s, j) is None {
            Lookup::Blank
        } else {
            Lookup::Mid(bound(exact_before(s, j)), bound(exact_after(s, j)))
        },
        Lookup::Mid(a, b) => match exact_after(s, j) {
            Some(r) => Lookup::Mid(a, Some(r as usize)),
            None => Lookup::Mid(a, b),
        },
    }
}

/// The table after `fill`.
pub open spec fn filled(s: Seq<Lookup>) -> Seq<Lookup> {
    Seq::new(s.len(), |j: int| filled_slot(s, j))
}

/// The distance measured at slot `a`; 0 if the slot is not a measured one.
pub open spec fn measured(s: Seq<Lookup>, a: int) -> int {
    match s[a] {
        Lookup::Exact(d) => d as int,
        _ => 0,
    }
}

/// The numerator of the distance interpolated at `i` between the measured
/// slots `a` and `b`: each of the two distances weighs as much as the other
/// slot is far away. Divided by `b - a`, this is the point at `i` on the
/// straight line through the two measurements.
pub open spec fn weighted_sum(s: Seq<Lookup>, i: int, a: int, b: int) -> int {
    (i - a) * measured(s, b) + (b - i) * measured(s, a)
}

/// What the table says about position `i`.
pub open spec fn reading(s: Seq<Lookup>, i: int) -> Distance {
    match s[i] {
        Lookup::Exact(d) => Distance::Exact(d),
        Lookup::Mid(Some(a), Some(b)) => Distance::Interpolated {
            numerator: weighted_sum(s, i, a as int, b as int) as i128,
            denominator: (b - a) as usize,
        },
        _ => Distance::OutOfRange,
    }
}

/// Every bound of a linked slot is the position of a measured slot, on the
/// side of the slot that the bound stands for.
pub open spec fn well_formed(s: Seq<Lookup>) -> bool {
    forall|j: int|
        0 <= j < s.len() ==> match #[trigger] s[j] {
            Lookup::Mid(a, b) => {
                &&& a matches Some(x) ==> x < j && s[x as int] is Exact
                &&& b matches Some(y) ==> j < y < s.len() && s[y as int] is Exact
            },
            _ => true,
        }
}

/// `exact_before` finds a measured slot to the left with none in between,
/// and finds none only where there is none.
pub proof fn lemma_exact_before(s: Seq<Lookup>, j: int)
    requires
        0 <= j <= s.len(),
    ensures
        match exact_before(s, j) {
            Some(a) => 0 <= a < j && s[a] is Exact && forall|k: int|
                a < k < j ==> !(#[trigger] s[k] is Exact),
            None => forall|k: int| 0 <= k < j ==> !(#[trigger] s[k] is Exact),
        },
    decreases j,
{
    if j > 0 && !(s[j - 1] is Exact) {
        lemma_exact_before(s, j - 1);
    }
}

/// `exact_after` finds a measured slot to the right with none in between,
/// and finds none only where there is none.
pub proof fn lemma_exact_after(s: Seq<Lookup>, j: int)
    requires
        -1 <= j < s.len(),
    ensures
        match exact_after(s, j) {
            Some(b) => j < b < s.len() && s[b] is Exact && forall|k: int|
                j < k < b ==> !(#[trigger] s[k] is Exact),
            None => forall|k: int| j < k < s.len() ==> !(#[trigger] s[k] is Exact),
        },
    decreases s.len() - j,
{
    if j + 1 < s.len() && !(s[j + 1] is Exact) {
        lemma_exact_after(s, j + 1);
    }
}

/// `fill` keeps a well-formed table well formed.
pub proof fn lemma_filled_well_formed(s: Seq<Lookup>)
    requires
        well_formed(s),
        s.len() <= usize::MAX,
    ensures
        well_formed(filled(s)),
{
    let t = filled(s);
    assert forall|j: int| 0 <= j < t.len() implies match #[trigger] t[j] {
        Lookup::Mid(a, b) => {
            &&& a matches Some(x) ==> x < j && t[x as int] is Exact
            &&& b matches Some(y) ==> j < y < t.len() && t[y as int] is Exact
        },
        _ => true,
    } by {
        lemma_exact_before(s, j);
        lemma_exact_after(s, j);
        assert(t[j] == filled_slot(s, j));
        if let Lookup::Mid(a, b) = t[j] {
            if let Some(x) = a {
                assert(s[x as int] is Exact);
                assert(t[x as int] == filled_slot(s, x as int));
            }
            if let Some(y) = b {
                assert(s[y as int] is Exact);
                assert(t[y as int] == filled_slot(s, y as int));
            }
        }
    }
}

/// `fill` leaves every measured slot as it is, and the table reads the
/// measured distance there.
pub proof fn lemma_measured_slot_stays(s: Seq<Lookup>, i: int, d: i64)
    requires
        0 <= i < s.len(),
        s[i] == Lookup::Exact(d),
    ensures
        filled(s)[i] == Lookup::Exact(d),
        reading(filled(s), i) == Distance::Exact(d),
        reading(s, i) == Distance::Exact(d),
{
}

/// After `fill`, a blank slot between two measured slots with no measured
/// slot in between reads the point at its position on the straight line
/// through the two measurements.
pub proof fn lemma_between_is_interpolated(s: Seq<Lookup>, i: int, a: int, b: int)
    requires
        s.len() <= usize::MAX,
        0 <= a < i < b < s.len(),
        s[a] is Exact,
        s[b] is Exact,
        s[i] is Blank,
        forall|k: int| a < k < b ==> !(#[trigger] s[k] is Exact),
    ensures
        filled(s)[i] == Lookup::Mid(Some(a as usize), Some(b as usize)),
        reading(filled(s), i) matches Distance::Interpolated { numerator, denominator }
            && numerator == (i - a) * measured(s, b) + (b - i) * measured(s, a) && denominator == b
            - a,
{
    lemma_exact_before(s, i);
    lemma_exact_after(s, i);
    let t = filled(s);
    assert(t[a] == s[a] && t[b] == s[b]);
    assert(measured(t, a) == measured(s, a) && measured(t, b) == measured(s, b));
    lemma_weighted_sum_fits(i - a, b - i, measured(s, a), measured(s, b));
}

/// After `fill`, a blank slot with no measured slot at its left, or none at
/// its right, reads as outside the calibrated span; and where the table
/// holds a measured slot at all, the slot is blank no longer.
pub proof fn lemma_outside_is_out_of_range(s: Seq<Lookup>, i: int)
    requires
        s.len() <= usize::MAX,
        0 <= i < s.len(),
        s[i] is Blank,
        (forall|k: int| 0 <= k < i ==> !(#[trigger] s[k] is Exact)) || (forall|k: int|
            i < k < s.len() ==> !(#[trigger] s[k] is Exact)),
    ensures
        reading(filled(s), i) == Distance::OutOfRange,
        (exists|k: int| 0 <= k < s.len() && #[trigger] s[k] is Exact) ==> filled(s)[i] is Mid,
{
    lemma_exact_before(s, i);
    lemma_exact_after(s, i);
}

/// Where the table holds a measured slot, `fill` leaves no slot blank.
pub proof fn lemma_no_blank_after_fill(s: Seq<Lookup>, k: int)
    requires
        0 <= k < s.len(),
        s[k] is Exact,
    ensures
        forall|j: int| 0 <= j < s.len() ==> !(#[trigger] filled(s)[j] is Blank),
{
    assert forall|j: int| 0 <= j < s.len() implies !(#[trigger] filled(s)[j] is Blank) by {
        lemma_exact_before(s, j);
        lemma_exact_after(s, j);
    }
}

/// An interpolated distance lies between the two measured distances: the
/// table never reads beyond what was measured.
pub proof fn lemma_interpolation_stays_between(s: Seq<Lookup>, i: int, a: int, b: int)
    requires
        a <= i <= b,
        a < b,
    ensures
        measured(s, a) <= measured(s, b) ==> measured(s, a) * (b - a) <= weighted_sum(s, i, a, b)
            <= measured(s, b) * (b - a),
        measured(s, b) <= measured(s, a) ==> measured(s, b) * (b - a) <= weighted_sum(s, i, a, b)
            <= measured(s, a) * (b - a),
        i == a ==> weighted_sum(s, i, a, b) == measured(s, a) * (b - a),
        i == b ==> weighted_sum(s, i, a, b) == measured(s, b) * (b - a),
{
    let da = measured(s, a);
    let db = measured(s, b);
    let sum = weighted_sum(s, i, a, b);
    assert(sum == (i - a) * db + (b - i) * da);
    assert(sum == da * (b - a) + (i - a) * (db - da)) by (nonlinear_arith)
        requires
            sum == (i - a) * db + (b - i) * da,
    ;
    assert(sum == db * (b - a) - (b - i) * (db - da)) by (nonlinear_arith)
        requires
            sum == (i - a) * db + (b - i) * da,
    ;
    assert(da <= db ==> (i - a) * (db - da) >= 0 && (b - i) * (db - da) >= 0)
        by (nonlinear_arith)
        requires
            a <= i <= b,
    ;
    assert(db <= da ==> (i - a) * (db - da) <= 0 && (b - i) * (db - da) <= 0)
        by (nonlinear_arith)
        requires
            a <= i <= b,
    ;
    assert(i == a ==> (i - a) * (db - da) == 0) by (nonlinear_arith);
    assert(i == b ==> (b - i) * (db - da) == 0) by (nonlinear_arith);
}

/// The table after the samples were put into it one after the other; a
/// later sample replaces an earlier one at the same position.
pub open spec fn placed(s: Seq<Lookup>, samples: Seq<(usize, i64)>) -> Seq<Lookup>
    decreases samples.len(),
{
    if samples.len() == 0 {
        s
    } else {
        placed(s, samples.drop_last()).update(
            samples.last().0 as int,
            Lookup::Exact(samples.last().1),
        )
    }
}

/// A table of `n` blank slots.
pub open spec fn blank(n: nat) -> Seq<Lookup> {
    Seq::new(n, |j: int| Lookup::Blank)
}

/// The first sample whose position is not in a table of `n` slots.
pub open spec fn first_misplaced(samples: Seq<(usize, i64)>, n: nat, k: int) -> bool {
    &&& 0 <= k < samples.len()
    &&& samples[k].0 >= n
    &&& forall|j: int| 0 <= j < k ==> (#[trigger] samples[j]).0 < n
}

/// A weighted sum of two distances fits the numerator of a fraction.
proof fn lemma_weighted_sum_fits(wa: int, wb: int, da: int, db: int)
    requires
        0 <= wa,
        0 <= wb,
        wa + wb <= u64::MAX,
        i64::MIN <= da <= i64::MAX,
        i64::MIN <= db <= i64::MAX,
    ensures
        i128::MIN <= wa * db <= i128::MAX,
        i128::MIN <= wb * da <= i128::MAX,
        i128::MIN <= wa * db + wb * da <= i128::MAX,
{
    assert(-(wa * 0x8000_0000_0000_0000) <= wa * db <= wa * 0x8000_0000_0000_0000)
        by (nonlinear_arith)
        requires
            0 <= wa,
            -0x8000_0000_0000_0000 <= db <= 0x8000_0000_0000_0000,
    ;
    assert(-(wb * 0x8000_0000_0000_0000) <= wb * da <= wb * 0x8000_0000_0000_0000)
        by (nonlinear_arith)
        requires
            0 <= wb,
            -0x8000_0000_0000_0000 <= da <= 0x8000_0000_0000_0000,
    ;
}

/// The calibration table.
///
/// In every table the bounds of a linked slot are positions of measured
/// slots of that table.
#[derive(Debug)]
pub struct LookupTable {
    v: Vec<Lookup>,
}

impl Clone for LookupTable {
    fn clone(&self) -> (result: Self)
        ensures
            result@ == self@,
    {
        proof {
            use_type_invariant(self);
        }
        let mut v: Vec<Lookup> = Vec::new();
        let mut j: usize = 0;
        while j < self.v.len()
            invariant
                j <= self.v.len(),
                v@ == self.v@.take(j as int),
            decreases self.v.len() - j,
        {
            v.push(self.v[j]);
            proof {
                assert(v@ =~= self.v@.take(j + 1));
            }
            j = j + 1;
        }
        proof {
            assert(self.v@.take(j as int) =~= self.v@);
        }
        LookupTable { v }
    }
}

impl View for LookupTable {
    type V = Seq<Lookup>;

    closed spec fn view(&self) -> Seq<Lookup> {
        self.v@
    }
}

impl LookupTable {
    #[verifier::type_invariant]
    spec fn bounds_are_measured(&self) -> bool {
        well_formed(self.v@)
    }


    /// A table of `n` blank slots.
    pub fn new(n: usize) -> (result: LookupTable)
        ensures
            result@ == blank(n as nat),
    {
        let mut v: Vec<Lookup> = Vec::new();
        let mut j: usize = 0;
        while j < n
            invariant
                j <= n,
                v@ == blank(j as nat),
            decreases n - j,
        {
            v.push(Lookup::Blank);
            proof {
                assert(v@ =~= blank((j + 1) as nat));
            }
            j = j + 1;
        }
        LookupTable { v }
    }

    /// The table of `n` slots that holds the samples, each a position and
    /// the distance measured there, and is filled. Fails on the first
    /// sample whose position is not in the table, and returns its index
    /// among the samples.
    pub fn calibrated(n: usize, samples: &Vec<(usize, i64)>) -> (result: Result<LookupTable, usize>)
        ensures
            match result {
                Ok(table) => {
                    &&& forall|j: int| 0 <= j < samples.len() ==> (#[trigger] samples[j]).0 < n
                    &&& table@ == filled(placed(blank(n as nat), samples@))
                },
                Err(k) => first_misplaced(samples@, n as nat, k as int),
            },
    {
        let mut table = LookupTable::new(n);
        let mut k: usize = 0;
        proof {
            assert(samples@.take(0) =~= Seq::<(usize, i64)>::empty());
        }
        while k < samples.len()
            invariant
                k <= samples.len(),
                table@.len() == n,
                forall|j: int| 0 <= j < k ==> (#[trigger] samples[j]).0 < n,
                table@ == placed(blank(n as nat), samples@.take(k as int)),
            decreases samples.len() - k,
        {
            let (position, distance) = samples[k];
            if position >= n {
                return Err(k);
            }
            table.add_exact(position, distance);
            proof {
                assert(samples@.take(k + 1).drop_last() =~= samples@.take(k as int));
            }
            k = k + 1;
        }
        proof {
            assert(samples@.take(k as int) =~= samples@);
        }
        table.fill();
        Ok(table)
    }

    /// The number of slots.
    pub fn len(&self) -> (result: usize)
        ensures
            result == self@.len(),
            well_formed(self@),
    {
        proof {
            use_type_invariant(self);
        }
        self.v.len()
    }

    /// The slot at position `i`.
    pub fn slot(&self, i: usize) -> (result: Lookup)
        requires
            i < self@.len(),
        ensures
            result == self@[i as int],
    {
        self.v[i]
    }

    /// Records the distance measured at position `i`.
    pub fn add_exact(&mut self, i: usize, dist: i64)
        requires
            i < old(self)@.len(),
        ensures
            final(self)@ == old(self)@.update(i as int, Lookup::Exact(dist)),
    {
        proof {
            use_type_invariant(&*self);
        }
        // The slots are taken out of the table while they are worked on.
        let mut slots: Vec<Lookup> = Vec::new();
        core::mem::swap(&mut self.v, &mut slots);
        slots[i] = Lookup::Exact(dist);
        core::mem::swap(&mut self.v, &mut slots);
    }

    /// The distance measured at position `i`.
    pub fn exact(&self, i: usize) -> (result: i64)
        requires
            i < self@.len(),
            self@[i as int] is Exact,
        ensures
            self@[i as int] == Lookup::Exact(result),
    {
        match self.v[i] {
            Lookup::Exact(dist) => dist,
            _ => 0,
        }
    }

    /// Links every slot that is not measured to the nearest measured slots.
    pub fn fill(&mut self)
        ensures
            final(self)@ == filled(old(self)@),
    {
        proof {
            use_type_invariant(&*self);
        }
        // The slots are taken out of the table while they are worked on.
        let mut slots: Vec<Lookup> = Vec::new();
        core::mem::swap(&mut self.v, &mut slots);
        let size = slots.len();
        let ghost before = slots@;
        let mut last: Option<usize> = None;
        let mut j: usize = 0;
        while j < size
            invariant
                j <= size,
                size == before.len(),
                slots@.len() == size,
                well_formed(slots@),
                last == bound(exact_before(before, j as int)),
                forall|k: int| 0 <= k < size ==> (#[trigger] slots@[k] is Exact <==> before[k] is Exact),
                forall|k: int| 0 <= k < j ==> #[trigger] slots@[k] == swept_slot(before, k),
                forall|k: int| j <= k < size ==> #[trigger] slots@[k] == before[k],
            decreases size - j,
        {
            proof {
                lemma_exact_before(before, j as int);
            }
            match slots[j] {
                Lookup::Exact(_) => {
                    last = Some(j);
                },
                Lookup::Blank => {
                    if let Some(i) = last {
                        slots[j] = Lookup::Mid(Some(i), None);
                    }
                },
                Lookup::Mid(_, _) => {},
            }
            j = j + 1;
        }
        let mut next: Option<usize> = None;
        while j > 0
            invariant
                j <= size,
                size == before.len(),
                slots@.len() == size,
                well_formed(slots@),
                well_formed(before),
                next == bound(exact_after(before, j as int - 1)),
                forall|k: int| 0 <= k < size ==> (#[trigger] slots@[k] is Exact <==> before[k] is Exact),
                forall|k: int| 0 <= k < j ==> #[trigger] slots@[k] == swept_slot(before, k),
                forall|k: int| j <= k < size ==> #[trigger] slots@[k] == filled_slot(before, k),
            decreases j,
        {
            j = j - 1;
            proof {
                lemma_exact_before(before, j as int);
                lemma_exact_after(before, j as int);
                lemma_exact_after(before, j as int - 1);
            }
            match slots[j] {
                Lookup::Exact(_) => {
                    next = Some(j);
                },
                Lookup::Mid(a, _) => {
                    if let Some(i) = next {
                        slots[j] = Lookup::Mid(a, Some(i));
                    }
                },
                Lookup::Blank => {
                    if let Some(i) = next {
                        slots[j] = Lookup::Mid(None, Some(i));
                    }
                },
            }
        }
        proof {
            assert(slots@ =~= filled(before));
        }
        core::mem::swap(&mut self.v, &mut slots);
    }

    /// The distance at position `i`: the measured one, or the one
    /// interpolated between the two bounds of the slot, or none where a
    /// bound is missing.
    pub fn dist(&self, i: usize) -> (result: Distance)
        requires
            i < self@.len(),
            !(self@[i as int] is Blank),
        ensures
            result == reading(self@, i as int),
            result matches Distance::Interpolated { numerator, denominator } ==> {
                &&& self@[i as int] matches Lookup::Mid(Some(a), Some(b))
                &&& numerator == weighted_sum(self@, i as int, a as int, b as int)
                &&& denominator == b - a
                &&& denominator > 0
            },
    {
        proof {
            use_type_invariant(self);
        }
        match self.v[i] {
            Lookup::Exact(dist) => Distance::Exact(dist),
            Lookup::Mid(Some(a), Some(b)) => {
                let right = self.exact(b) as i128;
                let left = self.exact(a) as i128;
                let to_left = (i - a) as i128;
                let to_right = (b - i) as i128;
                proof {
                    lemma_weighted_sum_fits(to_left as int, to_right as int, left as int, right as int);
                }
                Distance::Interpolated {
                    numerator: to_left * right + to_right * left,
                    denominator: b - a,
                }
            },
            _ => Distance::OutOfRange,
        }
    }
}

} // verus!
