use vstd::prelude::*;
use crate::wiring::Wiring;
use crate::{EnigmaChar, EnigmaResult};

verus! {

/// A rotor inside an enigma machine: an immutable wiring table and a
/// mutable position, advanced by stepping and read by the signal path.
pub struct Rotor {
    /// Internal wiring of the rotor
    pub wiring: Wiring,
    /// Current position of this rotor
    pub position: u8,
}

/// The position reached by one step of rotation from `p`.
pub open spec fn next_position(p: int) -> int {
    (p + 1) % 26
}

/// The position reached by `n` consecutive steps from `p`.
pub open spec fn rotate_n(p: int, n: nat) -> int
    decreases n,
{
    if n == 0 {
        p
    } else {
        next_position(rotate_n(p, (n - 1) as nat))
    }
}

proof fn lemma_rotate_n_mod(p: int, n: nat)
    requires
        0 <= p < 26,
    ensures
        rotate_n(p, n) == (p + n) % 26,
    decreases n,
{
    if n > 0 {
        lemma_rotate_n_mod(p, (n - 1) as nat);
    }
}

/// A rotor's position after 26 consecutive steps equals its starting
/// position: stepping is periodic with the alphabet length.
pub proof fn lemma_rotation_period(p: int)
    requires
        0 <= p < 26,
    ensures
        rotate_n(p, 26) == p,
{
    lemma_rotate_n_mod(p, 26);
}

/// The signal-path transformation of one rotor: the incoming signal enters
/// at a contact shifted by the rotor's position, passes the fixed table
/// `t`, and exits shifted back by the same amount.
pub open spec fn spec_transform(t: Seq<u8>, p: int, i: int) -> int {
    (t[(i + p) % 26] + 26 - p) % 26
}

impl Rotor {
    /// The wiring is well formed and the position is a real position.
    pub open spec fn wf(self) -> bool {
        self.wiring.wf() && self.position < 26
    }

    /// The table a signal passes in the given direction.
    pub open spec fn spec_table(self, reversed: bool) -> Seq<u8> {
        if reversed {
            self.wiring.reverse_wiring@
        } else {
            self.wiring.wiring@
        }
    }

    /// The rotor sits on one of its turnover notches.
    pub open spec fn spec_at_notch(self) -> bool {
        ||| (self.wiring.notch_1 matches Some(x) && x == self.position)
        ||| (self.wiring.notch_2 matches Some(x) && x == self.position)
    }

    /// Creates a new rotor at position 0.
    pub fn new(wiring: Wiring) -> (r: Rotor)
        ensures
            r.wiring == wiring,
            r.position == 0,
    {
        Rotor { wiring, position: 0 }
    }

    /// Rotates the rotor once, wrapping from the last position to the first.
    pub fn rotate(&mut self)
        requires
            old(self).position < 26,
        ensures
            final(self).position == next_position(old(self).position as int),
            final(self).position < 26,
            final(self).wiring == old(self).wiring,
    {
        self.position = (self.position + 1) % 26;
    }

    /// Sets the rotor's position to the given character's position.
    pub fn set_position(&mut self, pos: &EnigmaChar) -> (r: EnigmaResult<()>)
        requires
            pos.wf(),
        ensures
            r is Ok,
            final(self).position == pos.internal,
            final(self).wiring == old(self).wiring,
    {
        self.position = pos.internal;
        Ok(())
    }

    /// Returns true if the rotor is currently on one of its turnover notches.
    pub fn has_notch(&self) -> (r: bool)
        ensures
            r == self.spec_at_notch(),
    {
        (matches!(self.wiring.notch_1, Some(x) if x == self.position)) || (matches!(
            self.wiring.notch_2,
            Some(x) if x == self.position
        ))
    }

    /// Returns the rotor's current position, rendered uppercase by convention.
    pub fn get_position(&self) -> (r: EnigmaChar)
        ensures
            r == (EnigmaChar { internal: self.position, uppercase: true }),
    {
        EnigmaChar { internal: self.position, uppercase: true }
    }

    /// Runs a signal through this rotor, forward or in reverse; the case
    /// flag passes through unchanged.
    pub fn get_for(&self, input: &mut EnigmaChar, reversed: bool) -> (r: EnigmaResult<()>)
        requires
            self.wf(),
            old(input).wf(),
        ensures
            r is Ok,
            final(input).internal as int == spec_transform(
                self.spec_table(reversed),
                self.position as int,
                old(input).internal as int,
            ),
            final(input).uppercase == old(input).uppercase,
            final(input).wf(),
    {
        let inchar = (input.internal + self.position) % 26;
        let outchar = ((if reversed {
            self.wiring.reverse_wiring[inchar as usize]
        } else {
            self.wiring.wiring[inchar as usize]
        }) + 26 - self.position) % 26;
        input.internal = outchar;
        Ok(())
    }
}

/// Any transformed signal is again a position, whatever the direction.
pub proof fn lemma_transform_range(t: Seq<u8>, p: int, i: int)
    requires
        t.len() == 26,
        forall|k: int| 0 <= k < 26 ==> t[k] < 26,
        0 <= p < 26,
        0 <= i < 26,
    ensures
        0 <= spec_transform(t, p, i) < 26,
{
    assert(0 <= (i + p) % 26 < 26);
}

/// The two directions of one rotor undo each other at every position: the
/// reverse table is the forward table's inverse, and the positional offset
/// is applied and removed symmetrically.
pub proof fn lemma_transform_inverse(w: Wiring, p: int, i: int)
    requires
        w.wf(),
        0 <= p < 26,
        0 <= i < 26,
    ensures
        spec_transform(w.reverse_wiring@, p, spec_transform(w.wiring@, p, i)) == i,
        spec_transform(w.wiring@, p, spec_transform(w.reverse_wiring@, p, i)) == i,
{
    let s = (i + p) % 26;
    assert(0 <= s < 26);
    let o = spec_transform(w.wiring@, p, i);
    assert((o + p) % 26 == w.wiring@[s] as int);
    assert(w.reverse_wiring@[w.wiring@[s] as int] == s);
    assert(spec_transform(w.reverse_wiring@, p, o) == (s + 26 - p) % 26);
    assert((s + 26 - p) % 26 == i);

    let s2 = (i + p) % 26;
    let o2 = spec_transform(w.reverse_wiring@, p, i);
    assert((o2 + p) % 26 == w.reverse_wiring@[s2] as int);
    assert(w.wiring@[w.reverse_wiring@[s2] as int] == s2);
    assert(spec_transform(w.wiring@, p, o2) == (s2 + 26 - p) % 26);
    assert((s2 + 26 - p) % 26 == i);
}

} // verus!
