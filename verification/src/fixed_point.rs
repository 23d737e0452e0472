//! Angles, widening and storage for [`Fixed`].

use crate::fast_block::{erff, erff_of};
use crate::scalar::{Circular, Fixed, Gaussian, Scalar, Stored, Style, Widens};
use crate::text::{decimal, decimal_padded, digits, last_digits};
use vstd::prelude::*;
use vstd::string::*;

verus! {

/// A number over `2^i`, rounded down.
pub open spec fn shifted(x: Fixed, i: nat) -> Fixed {
    Fixed(x.0 >> (i as u64))
}

/// The angle whose tangent is `2^-i`.
pub open spec fn step_angle(i: nat) -> Fixed {
    if i == 0 {
        Fixed(51472)
    } else if i == 1 {
        Fixed(30386)
    } else if i == 2 {
        Fixed(16055)
    } else if i == 3 {
        Fixed(8150)
    } else if i == 4 {
        Fixed(4091)
    } else {
        Fixed(65536i64 >> (i as u64))
    }
}

fn step_angle_of(i: u64) -> (r: Fixed)
    requires
        i < 64,
    ensures
        r == step_angle(i as nat),
{
    match i {
        0 => Fixed(51472),
        1 => Fixed(30386),
        2 => Fixed(16055),
        3 => Fixed(8150),
        4 => Fixed(4091),
        _ => Fixed(65536i64 >> i),
    }
}

/// A point and an angle left over.
pub struct Turn {
    pub x: Fixed,
    pub y: Fixed,
    pub z: Fixed,
}

/// One step of a rotation, to the left or to the right.
pub open spec fn turn_step(t: Turn, i: nat, left: bool) -> Turn {
    if left {
        Turn {
            x: t.x.minus_spec(shifted(t.y, i)),
            y: t.y.plus_spec(shifted(t.x, i)),
            z: t.z.minus_spec(step_angle(i)),
        }
    } else {
        Turn {
            x: t.x.plus_spec(shifted(t.y, i)),
            y: t.y.minus_spec(shifted(t.x, i)),
            z: t.z.plus_spec(step_angle(i)),
        }
    }
}

/// The steps from `i` to the sixteenth: towards the angle, or towards the x axis.
pub open spec fn turned(t: Turn, i: nat, by_angle: bool) -> Turn
    decreases 16 - i,
{
    if i >= 16 {
        t
    } else {
        let left = if by_angle {
            t.z.0 >= 0
        } else {
            t.y.0 < 0
        };
        turned(turn_step(t, i, left), i + 1, by_angle)
    }
}

fn turn(start: Turn, by_angle: bool) -> (r: Turn)
    ensures
        r == turned(start, 0, by_angle),
{
    let mut t: Turn = start;
    let mut i: u64 = 0;
    while i < 16
        invariant
            i <= 16,
            turned(t, i as nat, by_angle) == turned(start, 0, by_angle),
        decreases 16 - i,
    {
        let left: bool = if by_angle {
            t.z.0 >= 0
        } else {
            t.y.0 < 0
        };
        let a: Fixed = step_angle_of(i);
        let xs: Fixed = Fixed(t.x.0 >> i);
        let ys: Fixed = Fixed(t.y.0 >> i);
        t = if left {
            Turn { x: t.x.minus(ys), y: t.y.plus(xs), z: t.z.minus(a) }
        } else {
            Turn { x: t.x.plus(ys), y: t.y.minus(xs), z: t.z.plus(a) }
        };
        i = i + 1;
    }
    t
}

/// Pi, a half and a whole turn, over 65536.
pub const HALF_TURN: i64 = 205887;

pub const WHOLE_TURN: i64 = 411775;

/// An angle less whole turns, from zero up.
pub open spec fn within_turn(a: Fixed) -> int {
    a.0 as int % 411775
}

/// The cosine and sine of an angle, by turning the x axis.
pub open spec fn unit_point(a: Fixed) -> (Fixed, Fixed) {
    let r = within_turn(a);
    let (folded, flip) = if r <= 102943 {
        (r, false)
    } else if r <= 308831 {
        (r - 205887, true)
    } else {
        (r - 411775, false)
    };
    let t = turned(
        Turn { x: Fixed(39797), y: Fixed(0), z: Fixed(folded as i64) },
        0,
        true,
    );
    if flip {
        (t.x.negated_spec(), t.y.negated_spec())
    } else {
        (t.x, t.y)
    }
}

fn unit_point_of(a: Fixed) -> (p: (Fixed, Fixed))
    ensures
        p == unit_point(a),
{
    let r: i64 = if a.0 >= 0 {
        a.0 % WHOLE_TURN
    } else {
        let m: u64 = (-(a.0 as i128)) as u64 % 411775;
        if m == 0 {
            0
        } else {
            WHOLE_TURN - m as i64
        }
    };
    proof {
        let n = a.0 as int;
        if n < 0 {
            let m = (-n) % 411775;
            let q = (-n) / 411775;
            assert(-n == 411775 * q + m);
            if m == 0 {
                assert(n % 411775 == 0);
            } else {
                assert(n == 411775 * (-q - 1) + (411775 - m));
                assert(n % 411775 == 411775 - m);
            }
        }
        assert(r == within_turn(a));
    }
    let (folded, flip): (i64, bool) = if r <= 102943 {
        (r, false)
    } else if r <= 308831 {
        (r - HALF_TURN, true)
    } else {
        (r - WHOLE_TURN, false)
    };
    let t: Turn = turn(Turn { x: Fixed(39797), y: Fixed(0), z: Fixed(folded) }, true);
    if flip {
        (t.x.negated(), t.y.negated())
    } else {
        (t.x, t.y)
    }
}

impl Circular for Fixed {
    open spec fn sine_spec(self) -> Self {
        unit_point(self).1
    }

    open spec fn cosine_spec(self) -> Self {
        unit_point(self).0
    }

    open spec fn tangent_spec(self) -> Self {
        unit_point(self).1.over_spec(unit_point(self).0)
    }

    open spec fn arc_cosine_spec(self) -> Self {
        crate::scalar::Analytic::root_spec(
            Fixed(65536).minus_spec(self.times_spec(self)),
        ).arc_tangent_spec(self)
    }

    open spec fn arc_tangent_spec(self, x: Self) -> Self {
        if x.0 >= 0 {
            turned(Turn { x, y: self, z: Fixed(0) }, 0, false).z
        } else {
            turned(
                Turn {
                    x: x.negated_spec(),
                    y: self.negated_spec(),
                    z: Fixed(
                        if self.0 >= 0 {
                            205887
                        } else {
                            (-205887) as i64
                        },
                    ),
                },
                0,
                false,
            ).z
        }
    }

    fn sine(self) -> (r: Self) {
        unit_point_of(self).1
    }

    fn cosine(self) -> (r: Self) {
        unit_point_of(self).0
    }

    fn tangent(self) -> (r: Self) {
        let p: (Fixed, Fixed) = unit_point_of(self);
        p.1.over(p.0)
    }

    fn arc_cosine(self) -> (r: Self) {
        crate::scalar::Analytic::root(Fixed(65536).minus(self.times(self))).arc_tangent(self)
    }

    fn arc_tangent(self, x: Self) -> (r: Self) {
        if x.0 >= 0 {
            turn(Turn { x, y: self, z: Fixed(0) }, false).z
        } else {
            let z: Fixed = if self.0 >= 0 {
                Fixed(HALF_TURN)
            } else {
                Fixed(-HALF_TURN)
            };
            turn(Turn { x: x.negated(), y: self.negated(), z }, false).z
        }
    }
}

impl Widens<Fixed> for Fixed {
    open spec fn widened_spec(narrow: Fixed) -> Self {
        narrow
    }

    open spec fn narrowed_spec(self) -> Fixed {
        self
    }

    fn widened(narrow: Fixed) -> (r: Self) {
        narrow
    }

    fn narrowed(self) -> (r: Fixed) {
        self
    }
}

/// The distance of a number from zero, times 65536.
pub open spec fn magnitude_of(x: Fixed) -> nat {
    if x.0 < 0 {
        (-x.0) as nat
    } else {
        x.0 as nat
    }
}

/// `m` halved until it is below twice `top`, up to `limit` times, with the
/// halvings added to `e`.
pub open spec fn halved_to(m: int, e: int, top: int, limit: nat) -> (int, int)
    decreases limit,
{
    if limit == 0 || m < 2 * top {
        (m, e)
    } else {
        halved_to(m / 2, e + 1, top, (limit - 1) as nat)
    }
}

/// `m` doubled until it is at least `top`, up to `limit` times, with the
/// doublings taken off `e`.
pub open spec fn doubled_to(m: int, e: int, top: int, limit: nat) -> (int, int)
    decreases limit,
{
    if limit == 0 || m >= top {
        (m, e)
    } else {
        doubled_to(2 * m, e - 1, top, (limit - 1) as nat)
    }
}

/// The binary floating-point pattern of a number without its sign, cut off: the
/// significand has its leading one at `top`, and the exponent is stored with
/// `bias` added.
pub open spec fn pattern(x: Fixed, top: int, bias: int) -> int {
    let m = magnitude_of(x);
    if m == 0 {
        0
    } else {
        let h = halved_to(m as int, -16, top, 64);
        let d = doubled_to(h.0, h.1, top, 64);
        (d.1 + bias) * top + (d.0 - top)
    }
}

fn pattern_of(x: Fixed, top: u64, bias: i64) -> (r: i128)
    requires
        top <= 0x10_0000_0000_0000,
        80 <= bias <= 2000,
    ensures
        r == pattern(x, top as int, bias as int),
        -0x1_0000_0000_0000_0000_0000 <= r <= 0x1_0000_0000_0000_0000_0000,
{
    let m: u64 = if x.0 < 0 {
        (-(x.0 as i128)) as u64
    } else {
        x.0 as u64
    };
    if m == 0 {
        return 0;
    }
    let mut h: u64 = m;
    let mut e: i64 = -16;
    let mut left: u64 = 64;
    while left > 0 && h >= 2 * top
        invariant
            left <= 64,
            top <= 0x10_0000_0000_0000,
            e == 48 - left,
            halved_to(h as int, e as int, top as int, left as nat) == halved_to(
                m as int,
                -16,
                top as int,
                64,
            ),
        decreases left,
    {
        h = h / 2;
        e = e + 1;
        left = left - 1;
    }
    let ghost mid = (h as int, e as int);
    left = 64;
    while left > 0 && h < top
        invariant
            left <= 64,
            top <= 0x10_0000_0000_0000,
            -16 <= mid.1 <= 48,
            e == mid.1 - (64 - left),
            doubled_to(h as int, e as int, top as int, left as nat) == doubled_to(
                mid.0,
                mid.1,
                top as int,
                64,
            ),
        decreases left,
    {
        h = 2 * h;
        e = e - 1;
        left = left - 1;
    }
    proof {
        let a = e + bias;
        assert(-0x1000 * 0x10_0000_0000_0000 <= a * top <= 0x1000 * 0x10_0000_0000_0000)
            by (nonlinear_arith)
            requires
                -0x1000 <= a <= 0x1000,
                0 <= top <= 0x10_0000_0000_0000,
        ;
    }
    (e + bias) as i128 * top as i128 + (h as i128 - top as i128)
}

impl Stored for Fixed {
    open spec fn bits_spec(self) -> u32 {
        let sign: int = if self.0 < 0 {
            0x8000_0000
        } else {
            0
        };
        (sign + pattern(self, 0x80_0000, 150)) as u32
    }

    open spec fn double_bits_spec(self) -> u64 {
        let sign: int = if self.0 < 0 {
            0x8000_0000_0000_0000
        } else {
            0
        };
        (sign + pattern(self, 0x10_0000_0000_0000, 1075)) as u64
    }

    /// The exact decimal expansion, in every style.
    open spec fn shown_spec(self, style: Style) -> Seq<char> {
        let m = magnitude_of(self);
        let sign: Seq<char> = if self.0 < 0 {
            seq!['-']
        } else {
            Seq::empty()
        };
        sign + digits(m / 65536) + seq!['.'] + last_digits((m % 65536) * 152587890625, 16)
    }

    fn bits(self) -> (r: u32) {
        let sign: i128 = if self.0 < 0 {
            0x8000_0000
        } else {
            0
        };
        (sign + pattern_of(self, 0x80_0000, 150)) as u32
    }

    fn double_bits(self) -> (r: u64) {
        let sign: i128 = if self.0 < 0 {
            0x8000_0000_0000_0000
        } else {
            0
        };
        (sign + pattern_of(self, 0x10_0000_0000_0000, 1075)) as u64
    }

    fn shown(self, style: Style) -> (r: String) {
        proof {
            reveal_strlit("-");
            reveal_strlit(".");
        }
        let m: u64 = if self.0 < 0 {
            (-(self.0 as i128)) as u64
        } else {
            self.0 as u64
        };
        let mut s: String = if self.0 < 0 {
            "-".to_owned()
        } else {
            String::new()
        };
        s.append(decimal(m / 65536).as_str());
        s.append(".");
        s.append(decimal_padded((m % 65536) * 152587890625, 16).as_str());
        assert(s@ =~= self.shown_spec(style));
        s
    }
}

impl Gaussian for Fixed {
    open spec fn error_function_spec(self) -> Self {
        erff_of(self)
    }

    fn error_function(self) -> (r: Self) {
        erff(self)
    }
}

} // verus!
