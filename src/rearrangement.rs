use vstd::prelude::*;
use vstd::string::StringExecFns;

verus! {

/// A marker id; id 0 is never a real marker.
pub type Marker = usize;

/// An extremity id: `2m` is the tail of marker `m`, `2m + 1` its head, and 0 the telomere.
pub type Extremity = usize;

/// An edge between two extremities.
pub type Adjacency = (Extremity, Extremity);

/// The telomere sentinel extremity.
pub const TELOMERE: Extremity = 0;

/// Whether both extremities of marker `m` fit in a `usize`.
pub open spec fn marker_fits(m: int) -> bool {
    2 * m + 1 <= usize::MAX
}

pub open spec fn head_spec(m: int) -> int {
    2 * m + 1
}

pub open spec fn tail_spec(m: int) -> int {
    2 * m
}

pub open spec fn marker_spec(x: int) -> int {
    x / 2
}

pub open spec fn is_tail_spec(x: int) -> bool {
    x % 2 == 0
}

/// The opposite end of the same marker; the telomere is its own opposite.
pub open spec fn other_spec(x: int) -> int {
    if x == 0 {
        0
    } else if x % 2 == 0 {
        x + 1
    } else {
        x - 1
    }
}

pub open spec fn canonical_spec(a: Adjacency) -> Adjacency {
    if a.0 < a.1 {
        a
    } else {
        (a.1, a.0)
    }
}

/// Head extremity of marker `n`.
pub fn head(n: Marker) -> (r: Extremity)
    requires
        marker_fits(n as int),
    ensures
        r == head_spec(n as int),
{
    2 * n + 1
}

/// Tail extremity of marker `n`.
pub fn tail(n: Marker) -> (r: Extremity)
    requires
        marker_fits(n as int),
    ensures
        r == tail_spec(n as int),
{
    2 * n
}

/// Whether `n` is a tail extremity (the telomere counts as one).
pub fn is_tail(n: Extremity) -> (r: bool)
    ensures
        r == is_tail_spec(n as int),
{
    n % 2 == 0
}

/// The marker an extremity belongs to.
pub fn marker(xtr: Extremity) -> (r: Marker)
    ensures
        r == marker_spec(xtr as int),
{
    xtr / 2
}

/// The other extremity of the same marker.
pub fn other(n: Extremity) -> (r: Extremity)
    ensures
        r == other_spec(n as int),
{
    if n == TELOMERE {
        return TELOMERE;
    }
    if is_tail(n) {
        head(marker(n))
    } else {
        tail(marker(n))
    }
}

/// Orders the two ends of an adjacency increasingly.
pub fn canonicize(a: Adjacency) -> (r: Adjacency)
    ensures
        r == canonical_spec(a),
        r.0 <= r.1,
        r.0 == a.0 && r.1 == a.1 || r.0 == a.1 && r.1 == a.0,
{
    let (x, y) = a;
    if x < y {
        (x, y)
    } else {
        (y, x)
    }
}

/// The extremities joined by consecutive markers `a` then `b` of a
/// chromosome, each given as (reads forward, marker): the end `a` leaves by
/// and the end `b` is entered by.
pub open spec fn to_adjacency_spec(a: (bool, Marker), b: (bool, Marker)) -> Adjacency {
    (
        (if a.0 {
            head_spec(a.1 as int)
        } else {
            tail_spec(a.1 as int)
        }) as usize,
        (if b.0 {
            tail_spec(b.1 as int)
        } else {
            head_spec(b.1 as int)
        }) as usize,
    )
}

/// The adjacency between consecutive markers `a` and `b` of a chromosome.
pub fn to_adjacency(a: (bool, Marker), b: (bool, Marker)) -> (r: Adjacency)
    requires
        marker_fits(a.1 as int),
        marker_fits(b.1 as int),
    ensures
        r == to_adjacency_spec(a, b),
{
    let (ifa, ma) = a;
    let (ifb, mb) = b;
    let xta = if ifa {
        head(ma)
    } else {
        tail(ma)
    };
    let xtb = if ifb {
        tail(mb)
    } else {
        head(mb)
    };
    (xta, xtb)
}

/// Decimal digits of `n`, most significant first.
pub open spec fn decimal(n: nat) -> Seq<char>
    decreases n,
{
    if n < 10 {
        seq![digit_char(n)]
    } else {
        decimal(n / 10).push(digit_char(n % 10))
    }
}

pub open spec fn digit_char(d: nat) -> char {
    if d == 0 { '0' } else if d == 1 { '1' } else if d == 2 { '2' } else if d == 3 { '3' } else if d == 4 {
        '4'
    } else if d == 5 { '5' } else if d == 6 { '6' } else if d == 7 { '7' } else if d == 8 { '8' } else {
        '9'
    }
}

/// Relies on `ToString` for `usize` (through `Display`): the decimal digits, no sign or padding.
#[verifier::external_body]
fn to_decimal(n: usize) -> (r: String)
    ensures
        r@ == decimal(n as nat),
{
    n.to_string()
}

/// An extremity written as its marker id followed by `t` (tail) or `h` (head).
pub fn hdtl_fmt(n: Extremity) -> (r: String)
    ensures
        r@ == decimal((n / 2) as nat) + if n % 2 == 0 {
            seq!['t']
        } else {
            seq!['h']
        },
{
    let s = to_decimal(marker(n));
    if n % 2 == 0 {
        proof {
            reveal_strlit("t");
        }
        s.concat("t")
    } else {
        proof {
            reveal_strlit("h");
        }
        s.concat("h")
    }
}

} // verus!
