//! The handwriting recognizers the game can load, with their class labels,
//! glyph size and input tensor shape. Running a model is the recognizer's job.

use vstd::prelude::*;
use crate::preprocess::{CANVAS, GLYPH_BALANCED, GLYPH_DIGIT, GLYPH_PRIMARY};

verus! {

#[derive(Debug, Clone, Copy, PartialEq, Eq, Structural)]
pub enum Kind {
    /// EMNIST-62: digits, upper- and lower-case letters.
    Primary,
    /// MNIST: digits.
    Digit,
    /// EMNIST-balanced-47: digits, upper case, and the lower-case letters that
    /// differ in shape from their capitals.
    Balanced,
}

/// The code points of the balanced model's classes, in class order.
pub open spec fn balanced_codes() -> Seq<u8> {
    seq![
        48u8, 49, 50, 51, 52, 53, 54, 55, 56, 57, 65, 66, 67, 68, 69, 70, 71, 72, 73, 74, 75, 76, 77, 78, 79, 80, 81,
        82, 83, 84, 85, 86, 87, 88, 89, 90, 97, 98, 100, 101, 102, 103, 104, 110, 113, 114, 116,
    ]
}

/// Class `i` of the EMNIST-62 model: `0-9`, then `A-Z`, then `a-z`.
pub open spec fn primary_label(i: int) -> char {
    if i < 10 {
        (48 + i) as char
    } else if i < 36 {
        (65 + (i - 10)) as char
    } else {
        (97 + (i - 36)) as char
    }
}

/// The class labels of a model kind, in class order.
pub open spec fn labels_spec(k: Kind) -> Seq<char> {
    match k {
        Kind::Primary => Seq::new(62, |i: int| primary_label(i)),
        Kind::Digit => Seq::new(10, |i: int| (48 + i) as char),
        Kind::Balanced => Seq::new(47, |i: int| balanced_codes()[i] as char),
    }
}

fn balanced_code_table() -> (t: [u8; 47])
    ensures
        t@ == balanced_codes(),
{
    let t: [u8; 47] = [
        48u8, 49, 50, 51, 52, 53, 54, 55, 56, 57, 65, 66, 67, 68, 69, 70, 71, 72, 73, 74, 75, 76, 77, 78, 79, 80, 81,
        82, 83, 84, 85, 86, 87, 88, 89, 90, 97, 98, 100, 101, 102, 103, 104, 110, 113, 114, 116,
    ];
    assert(t@ =~= balanced_codes());
    t
}

/// Append the `n` characters starting at code `first` to `v`.
fn push_run(v: &mut Vec<char>, first: u8, n: u8)
    requires
        first + n <= 128,
    ensures
        final(v)@ == old(v)@ + Seq::new(n as nat, |i: int| (first + i) as char),
{
    let ghost start = v@;
    let mut i: u8 = 0;
    while i < n
        invariant
            i <= n,
            first + n <= 128,
            v@ == start + Seq::new(i as nat, |j: int| (first + j) as char),
        decreases n - i,
    {
        v.push((first + i) as char);
        i += 1;
        assert(v@ =~= start + Seq::new(i as nat, |j: int| (first + j) as char));
    }
}

impl Kind {
    /// The class labels, in class order.
    pub fn labels(self) -> (v: Vec<char>)
        ensures
            v@ == labels_spec(self),
    {
        let mut v: Vec<char> = Vec::new();
        match self {
            Kind::Primary => {
                push_run(&mut v, 48, 10);
                push_run(&mut v, 65, 26);
                push_run(&mut v, 97, 26);
                assert(v@ =~= labels_spec(self));
            },
            Kind::Digit => {
                push_run(&mut v, 48, 10);
                assert(v@ =~= labels_spec(self));
            },
            Kind::Balanced => {
                let t = balanced_code_table();
                let mut i: usize = 0;
                while i < 47
                    invariant
                        i <= 47,
                        t@ == balanced_codes(),
                        v@ == Seq::new(i as nat, |j: int| balanced_codes()[j] as char),
                    decreases 47 - i,
                {
                    v.push(t[i] as char);
                    i += 1;
                    assert(v@ =~= Seq::new(i as nat, |j: int| balanced_codes()[j] as char));
                }
            },
        }
        v
    }

    /// The glyph size on the canvas this model was trained with.
    pub fn glyph_size(self) -> (n: usize)
        ensures
            n == match self {
                Kind::Primary => GLYPH_PRIMARY,
                Kind::Digit => GLYPH_DIGIT,
                Kind::Balanced => GLYPH_BALANCED,
            },
    {
        match self {
            Kind::Primary => GLYPH_PRIMARY,
            Kind::Digit => GLYPH_DIGIT,
            Kind::Balanced => GLYPH_BALANCED,
        }
    }

    /// The input tensor shape: NHWC for the balanced model, NCHW otherwise.
    pub fn input_shape(self) -> (s: [usize; 4])
        ensures
            s@ == (match self {
                Kind::Balanced => seq![1usize, CANVAS, CANVAS, 1],
                _ => seq![1usize, 1, CANVAS, CANVAS],
            }),
    {
        let s = match self {
            Kind::Balanced => [1, CANVAS, CANVAS, 1],
            _ => [1, 1, CANVAS, CANVAS],
        };
        assert(s@ =~= (match self {
            Kind::Balanced => seq![1usize, CANVAS, CANVAS, 1],
            _ => seq![1usize, 1, CANVAS, CANVAS],
        }));
        s
    }

    /// The model's display name.
    pub fn name(self) -> (n: &'static str)
        ensures
            n@ == (match self {
                Kind::Primary => "emnist-62"@,
                Kind::Digit => "mnist-12"@,
                Kind::Balanced => "balanced-47"@,
            }),
    {
        match self {
            Kind::Primary => "emnist-62",
            Kind::Digit => "mnist-12",
            Kind::Balanced => "balanced-47",
        }
    }
}

} // verus!
