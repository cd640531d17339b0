//! Colour classification of averaged pixel samples.
//!
//! A sample is a triple `(red, green, blue)` of channel intensities. Samples
//! are sorted into three classes, ranked `White > Red > Other`; when samples
//! are pooled, the pool takes the highest rank found in it.

use vstd::prelude::*;

verus! {

/// A sample whose channel mean reaches this value is white.
pub const WHITE_THRESHOLD: u32 = 240;

/// A sample is red when the square of its red channel is at least this many
/// times the sum of its green and blue channels.
pub const RED_THRESHOLD: u32 = 310;

/// The mean of the three channels, rounded down, is at least
/// [`WHITE_THRESHOLD`].
pub open spec fn white(color: (u32, u32, u32)) -> bool {
    (color.0 + color.1 + color.2) / 3 >= WHITE_THRESHOLD
}

/// The ratio `red * red / (green + blue)` is at least [`RED_THRESHOLD`].
/// A sample without any green or blue has no such ratio and is not red.
pub open spec fn red(color: (u32, u32, u32)) -> bool {
    color.1 + color.2 > 0 && color.0 * color.0 >= RED_THRESHOLD * (color.1 + color.2)
}

/// Two block numbers are neighbours: they differ by exactly one.
pub open spec fn neighbours(a: int, b: int) -> bool {
    a - b == 1 || b - a == 1
}

/// Tells whether a sample is bright enough to count as white.
pub fn is_white(color: (u32, u32, u32)) -> (result: bool)
    ensures
        result == white(color),
{
    let sum: u64 = color.0 as u64 + color.1 as u64 + color.2 as u64;
    sum / 3 >= WHITE_THRESHOLD as u64
}

/// Tells whether the red channel dominates green and blue strongly enough.
pub fn is_red(color: (u32, u32, u32)) -> (result: bool)
    ensures
        result == red(color),
{
    let rest: u64 = color.1 as u64 + color.2 as u64;
    let r: u64 = color.0 as u64;
    assert(r * r <= 0xffff_ffff * 0xffff_ffff) by (nonlinear_arith)
        requires
            r <= 0xffff_ffff,
    ;
    assert(RED_THRESHOLD * rest <= 310 * 0x1_ffff_fffe) by (nonlinear_arith)
        requires
            RED_THRESHOLD == 310,
            rest <= 0x1_ffff_fffe,
    ;
    rest > 0 && r * r >= RED_THRESHOLD as u64 * rest
}

/// Tells whether two block numbers differ by exactly one.
pub fn adjacent_bucket(a: u32, b: u32) -> (result: bool)
    ensures
        result == neighbours(a as int, b as int),
{
    if a > b {
        a - b == 1
    } else {
        b - a == 1
    }
}

/// The colour pattern that a dot search looks for.
#[derive(Debug, Clone, Copy, PartialEq, Eq, Structural)]
pub enum ColorPattern {
    RedWhiteRed,
    Red,
    White,
}

impl ColorPattern {
    /// The pattern that is tried after this one; the last is followed by
    /// the first.
    pub open spec fn successor(self) -> ColorPattern {
        match self {
            ColorPattern::RedWhiteRed => ColorPattern::Red,
            ColorPattern::Red => ColorPattern::White,
            ColorPattern::White => ColorPattern::RedWhiteRed,
        }
    }

    /// Moves on to the next pattern, in a cycle of three.
    pub fn incr(&mut self)
        ensures
            *final(self) == old(self).successor(),
    {
        match *self {
            ColorPattern::RedWhiteRed => *self = ColorPattern::Red,
            ColorPattern::Red => *self = ColorPattern::White,
            ColorPattern::White => *self = ColorPattern::RedWhiteRed,
        }
    }
}

/// The class of a sample, or of a region of samples.
#[derive(Debug, Clone, Copy, PartialEq, Eq, Structural)]
pub enum SimpleColor {
    White,
    Red,
    Other,
}

impl SimpleColor {
    /// The class of a single sample: white wins over red, red over other.
    pub open spec fn classify(color: (u32, u32, u32)) -> SimpleColor {
        if white(color) {
            SimpleColor::White
        } else if red(color) {
            SimpleColor::Red
        } else {
            SimpleColor::Other
        }
    }

    /// Position in the ranking `Other < Red < White`.
    pub open spec fn rank(self) -> nat {
        match self {
            SimpleColor::Other => 0,
            SimpleColor::Red => 1,
            SimpleColor::White => 2,
        }
    }

    /// The higher ranked of two classes.
    pub open spec fn dominant(self, other: SimpleColor) -> SimpleColor {
        if self.rank() >= other.rank() {
            self
        } else {
            other
        }
    }

    /// The text shown for a class, padded to five characters.
    pub open spec fn label_text(self) -> Seq<char> {
        match self {
            SimpleColor::White => "white"@,
            SimpleColor::Red => "red  "@,
            SimpleColor::Other => "other"@,
        }
    }

    /// Classifies one averaged sample.
    pub fn from_color(color: (u32, u32, u32)) -> (result: SimpleColor)
        ensures
            result == Self::classify(color),
            white(color) ==> result == SimpleColor::White,
    {
        if is_white(color) {
            SimpleColor::White
        } else if is_red(color) {
            SimpleColor::Red
        } else {
            SimpleColor::Other
        }
    }

    /// Combines two classes into the higher ranked one.
    pub fn max(self, other: SimpleColor) -> (result: SimpleColor)
        ensures
            result == self.dominant(other),
    {
        if self == other {
            self
        } else {
            match self {
                SimpleColor::White => SimpleColor::White,
                SimpleColor::Red => match other {
                    SimpleColor::White => SimpleColor::White,
                    _ => SimpleColor::Red,
                },
                SimpleColor::Other => other,
            }
        }
    }

    /// The class as text: `white`, `red  ` or `other`.
    pub fn label(&self) -> (result: String)
        ensures
            result@ == self.label_text(),
    {
        match self {
            SimpleColor::White => "white".to_owned(),
            SimpleColor::Red => "red  ".to_owned(),
            SimpleColor::Other => "other".to_owned(),
        }
    }
}

/// Pooling classes does not depend on the order in which they are pooled,
/// and pooling a class with itself changes nothing.
pub proof fn lemma_dominant_is_a_maximum(a: SimpleColor, b: SimpleColor, c: SimpleColor)
    ensures
        a.dominant(b) == b.dominant(a),
        a.dominant(b).dominant(c) == a.dominant(b.dominant(c)),
        a.dominant(a) == a,
        SimpleColor::Other.dominant(a) == a,
{
}

} // verus!
