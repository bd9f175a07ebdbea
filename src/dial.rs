use vstd::prelude::*;
use vstd::string::StringSliceAdditionalSpecFns;
use crate::text::{lines, views, signed_value, split_lines, parse_i64, slice_from};

verus! {

pub type Dial = i32;

/// The upper bound on what one rotation adds to the count of zero passes.
pub const MAX_PASSES: u64 = 0x1_0000_0000;

/// A dial with `size` positions, numbered from zero, and the counts of how
/// often a rotation ended on zero and how often the dial pointed at zero.
pub struct State {
    size: Dial,
    position: Dial,
    times_ends_at_zero: u64,
    times_crosses_zero: u64,
}

/// The abstract dial: size, position, rotations ending at zero, and times
/// the dial pointed at zero.
pub struct DialView {
    pub size: int,
    pub position: int,
    pub ends: int,
    pub crosses: int,
}

impl View for State {
    type V = DialView;

    closed spec fn view(&self) -> DialView {
        DialView {
            size: self.size as int,
            position: self.position as int,
            ends: self.times_ends_at_zero as int,
            crosses: self.times_crosses_zero as int,
        }
    }
}

/// How often the dial points at zero while it turns by `rotation` from
/// `position` (to the right for positive rotations, to the left for
/// negative ones), the final position included.
pub open spec fn passes(size: int, position: int, rotation: int) -> int {
    if rotation >= 0 {
        (position + rotation) / size
    } else {
        ((size - position) % size - rotation) / size
    }
}

/// The dial after one rotation.
pub open spec fn rotated(d: DialView, rotation: int) -> DialView {
    let next = (d.position + rotation) % d.size;
    DialView {
        size: d.size,
        position: next,
        ends: d.ends + if next == 0 { 1int } else { 0int },
        crosses: d.crosses + passes(d.size, d.position, rotation),
    }
}

/// The dial after the rotations `rots`, in order.
pub open spec fn rotated_all(d: DialView, rots: Seq<int>) -> DialView
    decreases rots.len(),
{
    if rots.len() == 0 {
        d
    } else {
        rotated(rotated_all(d, rots.drop_last()), rots.last())
    }
}

pub open spec fn dial_wf(d: DialView) -> bool {
    &&& 0 < d.size <= i32::MAX
    &&& 0 <= d.position < d.size
    &&& 0 <= d.ends
    &&& 0 <= d.crosses
}

/// The rotation that a line such as `L68` or `R48` spells: left turns are
/// negative.
pub open spec fn rotation_of(line: Seq<u8>) -> Option<int> {
    if line.len() >= 1 && signed_value(line.skip(1)) is Some {
        let clicks = signed_value(line.skip(1)).unwrap() as int;
        let r = if line[0] == 76u8 { -clicks } else { clicks };
        if i32::MIN <= clicks <= i32::MAX && i32::MIN <= r <= i32::MAX {
            Some(r)
        } else {
            None
        }
    } else {
        None
    }
}

/// The rotations of a text with one per line, or `None` when a line is not
/// one.
pub open spec fn rotations_of(s: Seq<u8>) -> Option<Seq<int>> {
    let ls = lines(s);
    if forall|i: int| 0 <= i < ls.len() ==> #[trigger] rotation_of(ls[i]) is Some {
        Some(Seq::new(ls.len(), |i: int| rotation_of(ls[i]).unwrap()))
    } else {
        None
    }
}

impl State {
    pub fn new(size: Dial, start: Dial) -> (r: State)
        ensures
            r@ == (DialView { size: size as int, position: start as int, ends: 0, crosses: 0 }),
    {
        State { size, position: start, times_ends_at_zero: 0, times_crosses_zero: 0 }
    }

    pub fn times_ends_at_zero(&self) -> (r: u64)
        ensures
            r == self@.ends,
    {
        self.times_ends_at_zero
    }

    pub fn times_crosses_zero(&self) -> (r: u64)
        ensures
            r == self@.crosses,
    {
        self.times_crosses_zero
    }

    /// Turns the dial by `rotation` and updates both counts.
    pub fn rotate(&mut self, rotation: Dial)
        requires
            dial_wf(old(self)@),
            old(self)@.ends < u64::MAX,
            old(self)@.crosses + MAX_PASSES <= u64::MAX,
        ensures
            final(self)@ == rotated(old(self)@, rotation as int),
            dial_wf(final(self)@),
    {
        let raw_next: i64 = self.position as i64 + rotation as i64;
        let raw_next_as_right: i64 = if rotation >= 0 {
            raw_next
        } else {
            self.reversed_position() as i64 - rotation as i64
        };
        let next: i64 = match raw_next.checked_rem_euclid(self.size as i64) {
            Some(v) => v,
            None => 0,
        };
        let q: u64 = (raw_next_as_right as u64) / (self.size as u64);
        assert(q <= MAX_PASSES) by {
            assert(raw_next_as_right <= 2 * (i32::MAX as int) + 1);
            assert((raw_next_as_right as u64) / (self.size as u64) <= raw_next_as_right as u64) by (nonlinear_arith)
                requires
                    self.size as u64 >= 1,
            ;
        }
        self.times_crosses_zero = self.times_crosses_zero + q;
        if next == 0 {
            self.times_ends_at_zero = self.times_ends_at_zero + 1;
        }
        self.position = next as i32;
    }

    /// The position counted from zero in the other direction.
    pub fn reversed_position(&mut self) -> (r: Dial)
        requires
            dial_wf(old(self)@),
        ensures
            *final(self) == *old(self),
            r == (old(self)@.size - old(self)@.position) % old(self)@.size,
    {
        (self.size - self.position) % self.size
    }
}

/// The rotation that one line spells.
pub fn parse_rotations(line: &[u8]) -> (r: Option<Dial>)
    ensures
        rotation_of(line@) is Some ==> r == Some(rotation_of(line@).unwrap() as Dial),
        rotation_of(line@) is None ==> r is None,
{
    if line.len() == 0 {
        return None;
    }
    let clicks = match parse_i64(slice_from(line, 1)) {
        Some(c) => c,
        None => {
            return None;
        },
    };
    if clicks < i32::MIN as i64 || clicks > i32::MAX as i64 {
        return None;
    }
    let r: i64 = if line[0] == 76u8 {
        -clicks
    } else {
        clicks
    };
    if r < i32::MIN as i64 || r > i32::MAX as i64 {
        return None;
    }
    Some(r as i32)
}

proof fn lemma_rotated_all_grows(d: DialView, rots: Seq<int>, k: int)
    requires
        dial_wf(d),
        0 <= k <= rots.len(),
    ensures
        dial_wf(rotated_all(d, rots)),
        rotated_all(d, rots.take(k)).ends <= rotated_all(d, rots).ends,
        rotated_all(d, rots.take(k)).crosses <= rotated_all(d, rots).crosses,
    decreases rots.len(),
{
    if rots.len() > 0 {
        let dl = rots.drop_last();
        if k == rots.len() {
            lemma_rotated_all_grows(d, dl, 0);
            assert(rots.take(k) =~= rots);
        } else {
            lemma_rotated_all_grows(d, dl, k);
            assert(dl.take(k) =~= rots.take(k));
        }
        let p = rotated_all(d, dl);
        let rot = rots.last();
        assert(passes(p.size, p.position, rot) >= 0) by {
            if rot >= 0 {
                assert((p.position + rot) / p.size >= 0) by (nonlinear_arith)
                    requires
                        p.position + rot >= 0,
                        p.size > 0,
                ;
            } else {
                let a = (p.size - p.position) % p.size - rot;
                assert(a / p.size >= 0) by (nonlinear_arith)
                    requires
                        a >= 0,
                        p.size > 0,
                ;
            }
        }
    } else {
        assert(rots.take(k) =~= rots);
    }
}

/// Applies the rotations written one per line in `input`. Returns `false`
/// and stops when a line is not a rotation or a count would exceed `u64`.
pub fn solve(state: &mut State, input: &str) -> (r: bool)
    requires
        dial_wf(old(state)@),
    ensures
        dial_wf(final(state)@),
        rotations_of(input.spec_bytes()) is None ==> !r,
        r ==> final(state)@ == rotated_all(old(state)@, rotations_of(input.spec_bytes()).unwrap()),
        rotations_of(input.spec_bytes()) is Some && {
            let f = rotated_all(old(state)@, rotations_of(input.spec_bytes()).unwrap());
            f.ends < u64::MAX && f.crosses + MAX_PASSES <= u64::MAX
        } ==> r,
{
    let ls = split_lines(input.as_bytes());
    let ghost lv = lines(input.spec_bytes());
    let ghost start = state@;
    let mut i: usize = 0;
    assert(views(ls@).len() == ls@.len());
    let ghost rots = Seq::new(lv.len(), |t: int| rotation_of(lv[t]).unwrap());
    proof {
        assert(rots.take(0) =~= Seq::<int>::empty());
        if rotations_of(input.spec_bytes()) is Some {
            assert(rotations_of(input.spec_bytes()).unwrap() =~= rots);
            lemma_rotated_all_grows(start, rots, 0);
        }
    }
    while i < ls.len()
        invariant
            views(ls@) == lv,
            lv == lines(input.spec_bytes()),
            ls@.len() == lv.len(),
            i <= lv.len(),
            rots == Seq::new(lv.len(), |t: int| rotation_of(lv[t]).unwrap()),
            forall|t: int| 0 <= t < i ==> #[trigger] rotation_of(lv[t]) is Some,
            dial_wf(start),
            start == old(state)@,
            dial_wf(state@),
            state@ == rotated_all(start, rots.take(i as int)),
            rotations_of(input.spec_bytes()) is Some ==> {
                let f = rotated_all(start, rotations_of(input.spec_bytes()).unwrap());
                f.ends < u64::MAX && f.crosses + MAX_PASSES <= u64::MAX
            } ==> state@.ends < u64::MAX && state@.crosses + MAX_PASSES <= u64::MAX,
        decreases lv.len() - i,
    {
        assert(ls@[i as int]@ == lv[i as int]);
        let rot = match parse_rotations(ls[i].as_slice()) {
            Some(v) => v,
            None => {
                assert(rotations_of(input.spec_bytes()) is None);
                return false;
            },
        };
        if state.times_ends_at_zero >= u64::MAX || state.times_crosses_zero > u64::MAX - MAX_PASSES {
            return false;
        }
        state.rotate(rot);
        proof {
            assert(rots.take(i + 1).drop_last() =~= rots.take(i as int));
            assert(rots.take(i + 1).last() == rot as int);
        }
        i = i + 1;
        proof {
            if rotations_of(input.spec_bytes()) is Some {
                assert(rotations_of(input.spec_bytes()).unwrap() =~= rots);
                lemma_rotated_all_grows(start, rots, i as int);
            }
        }
    }
    proof {
        assert(rots.take(i as int) =~= rots);
        assert(rotations_of(input.spec_bytes()).unwrap() =~= rots);
    }
    true
}

/// How many rotations end on zero, for a dial of a hundred positions that
/// starts at fifty.
pub fn part_one(input: &str) -> (r: Option<u64>)
    ensures
        rotations_of(input.spec_bytes()) is None ==> r is None,
        r is Some ==> r.unwrap() == rotated_all(
            DialView { size: 100, position: 50, ends: 0, crosses: 0 },
            rotations_of(input.spec_bytes()).unwrap(),
        ).ends,
{
    let mut state = State::new(100, 50);
    if solve(&mut state, input) {
        Some(state.times_ends_at_zero())
    } else {
        None
    }
}

/// How often the dial points at zero, for a dial of a hundred positions
/// that starts at fifty.
pub fn part_two(input: &str) -> (r: Option<u64>)
    ensures
        rotations_of(input.spec_bytes()) is None ==> r is None,
        r is Some ==> r.unwrap() == rotated_all(
            DialView { size: 100, position: 50, ends: 0, crosses: 0 },
            rotations_of(input.spec_bytes()).unwrap(),
        ).crosses,
{
    let mut state = State::new(100, 50);
    if solve(&mut state, input) {
        Some(state.times_crosses_zero())
    } else {
        None
    }
}

} // verus!
