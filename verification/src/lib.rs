//! An Enigma M3 rotor cipher machine: a plugboard, three stepping rotors and
//! a reflector, encoding one letter at a time.
pub mod rotor;
pub mod wiring;
use std::collections::HashMap;
use vstd::prelude::*;
use crate::rotor::{next_position, spec_transform, Rotor};
use crate::wiring::{StandardWiring, Wiring};

verus! {

/// Result returned by this crate's functions.
pub type EnigmaResult<T> = Result<T, EnigmaError>;

/// Errors returned by this crate.
#[derive(Debug)]
pub enum EnigmaError {
    InvalidChar(char),
    InvalidNumber(u8),
    InvalidPosition(String),
    InvalidSteckerbrettString(String),
    UnsupportedCharacter(char),
}

/// True for an ASCII capital letter.
pub open spec fn is_upper(c: char) -> bool {
    65 <= c as u32 <= 90
}

/// True for an ASCII small letter.
pub open spec fn is_lower(c: char) -> bool {
    97 <= c as u32 <= 122
}

/// True for any ASCII letter: exactly the characters the machine encodes.
pub open spec fn is_letter(c: char) -> bool {
    is_upper(c) || is_lower(c)
}

/// The zero-based alphabet position of an ASCII letter.
pub open spec fn letter_index(c: char) -> int {
    if is_upper(c) {
        c as u32 - 65
    } else {
        c as u32 - 97
    }
}

/// The letter at alphabet position `i`, capital or small as `uppercase` says.
pub open spec fn letter_at(i: int, uppercase: bool) -> char {
    if uppercase {
        ((i + 65) as u8) as char
    } else {
        ((i + 97) as u8) as char
    }
}

/// A character while inside of the machine: its alphabet position and its case.
#[derive(PartialEq, Eq, Structural, Clone, Copy, Debug)]
pub struct EnigmaChar {
    /// Position in the alphabet of this character
    pub internal: u8,
    /// Should this character be uppercase
    pub uppercase: bool,
}

impl EnigmaChar {
    /// Position is a real alphabet position.
    pub open spec fn wf(self) -> bool {
        self.internal < 26
    }

    /// Converts an external character; only ASCII letters are accepted.
    pub fn from_char(value: char) -> (r: EnigmaResult<EnigmaChar>)
        ensures
            is_letter(value) ==> r == Ok::<EnigmaChar, EnigmaError>(
                EnigmaChar { internal: letter_index(value) as u8, uppercase: is_upper(value) },
            ),
            !is_letter(value) ==> r == Err::<EnigmaChar, EnigmaError>(
                EnigmaError::InvalidChar(value),
            ),
            r matches Ok(c) ==> c.wf(),
    {
        let u = value as u32;
        if 65 <= u && u <= 90 {
            Ok(EnigmaChar { internal: (u - 65) as u8, uppercase: true })
        } else if 97 <= u && u <= 122 {
            Ok(EnigmaChar { internal: (u - 97) as u8, uppercase: false })
        } else {
            Err(EnigmaError::InvalidChar(value))
        }
    }

    /// Renders the character back in its recorded case.
    pub fn to_char(&self) -> (r: char)
        requires
            self.wf(),
        ensures
            r == letter_at(self.internal as int, self.uppercase),
            is_letter(r),
            letter_index(r) == self.internal as int,
            is_upper(r) == self.uppercase,
    {
        if self.uppercase {
            (self.internal + 65) as char
        } else {
            (self.internal + 97) as char
        }
    }
}

} // verus!

verus! {

/// An ASCII whitespace character, as used to separate plugboard tokens.
pub open spec fn is_space(c: char) -> bool {
    c == ' ' || c == '\t' || c == '\n' || c == '\r' || c == '\u{0B}' || c == '\u{0C}'
}

/// What the plugboard maps position `i` to: its partner where one is
/// registered, otherwise `i` itself.
pub open spec fn spec_stecker(m: Map<u8, u8>, i: u8) -> u8 {
    if m.contains_key(i) {
        m[i]
    } else {
        i
    }
}

/// Every registered endpoint and partner is a position.
pub open spec fn stecker_wf(m: Map<u8, u8>) -> bool {
    forall|k: u8| #[trigger] m.contains_key(k) ==> k < 26 && m[k] < 26
}

/// The plugboard swaps in both directions: every registered partner is
/// itself registered and maps back.
pub open spec fn stecker_symmetric(m: Map<u8, u8>) -> bool {
    forall|k: u8| #[trigger] m.contains_key(k) ==> m.contains_key(m[k]) && m[m[k]] == k
}

/// The map built by registering both directions of each pair, in order; a
/// repeated endpoint silently overwrites the earlier entry.
pub open spec fn spec_build_pairs(ps: Seq<(char, char)>) -> Map<u8, u8>
    decreases ps.len(),
{
    if ps.len() == 0 {
        Map::empty()
    } else {
        let a = letter_index(ps.last().0) as u8;
        let b = letter_index(ps.last().1) as u8;
        spec_build_pairs(ps.drop_last()).insert(a, b).insert(b, a)
    }
}

/// Every character of every pair is an ASCII letter.
pub open spec fn pairs_ok(ps: Seq<(char, char)>) -> bool {
    forall|k: int| 0 <= k < ps.len() ==> is_letter((#[trigger] ps[k]).0) && is_letter(ps[k].1)
}

/// The error reported for a malformed pair list: scanning pairs upward,
/// each pair's first character and then its second.
pub open spec fn first_pair_error(ps: Seq<(char, char)>, i: int) -> EnigmaError
    decreases ps.len() - i,
{
    if i < 0 || i >= ps.len() {
        EnigmaError::InvalidNumber(26)
    } else if !is_letter(ps[i].0) {
        EnigmaError::InvalidChar(ps[i].0)
    } else if !is_letter(ps[i].1) {
        EnigmaError::InvalidChar(ps[i].1)
    } else {
        first_pair_error(ps, i + 1)
    }
}

proof fn lemma_pair_error_skip(ps: Seq<(char, char)>, i: int)
    requires
        0 <= i <= ps.len(),
        forall|k: int| 0 <= k < i ==> is_letter((#[trigger] ps[k]).0) && is_letter(ps[k].1),
    ensures
        first_pair_error(ps, 0) == first_pair_error(ps, i),
    decreases i,
{
    if i > 0 {
        lemma_pair_error_skip(ps, i - 1);
    }
}

/// The pair list encoded by a whitespace-separated string of two-letter
/// tokens, or nothing where some token is not exactly two characters long.
pub open spec fn spec_parse_pairs(s: Seq<char>) -> Option<Seq<(char, char)>>
    decreases s.len(),
{
    if s.len() == 0 {
        Some(Seq::empty())
    } else if is_space(s[0]) {
        spec_parse_pairs(s.drop_first())
    } else if s.len() >= 2 && !is_space(s[1]) && (s.len() == 2 || is_space(s[2])) {
        match spec_parse_pairs(s.skip(2)) {
            Some(rest) => Some(seq![(s[0], s[1])] + rest),
            None => None,
        }
    } else {
        None
    }
}

/// A plugboard: a symmetric partial swap of the 26 positions, applied
/// before and after the rotor stack.
#[derive(Debug)]
pub struct Steckerbrett(pub HashMap<u8, u8>);

impl Steckerbrett {
    /// Every registered endpoint and partner is a position.
    pub open spec fn wf(self) -> bool {
        stecker_wf(self.0@)
    }

    /// Creates an empty plugboard, which leaves every character unchanged.
    pub fn new() -> (r: Steckerbrett)
        ensures
            r.0@ == Map::<u8, u8>::empty(),
            r.wf(),
    {
        broadcast use vstd::std_specs::hash::group_hash_axioms;

        Steckerbrett(HashMap::new())
    }

    /// Runs a character through this plugboard.
    pub fn get(&self, c: &mut EnigmaChar)
        requires
            self.wf(),
            old(c).wf(),
        ensures
            final(c).internal == spec_stecker(self.0@, old(c).internal),
            final(c).uppercase == old(c).uppercase,
            final(c).wf(),
    {
        broadcast use vstd::std_specs::hash::group_hash_axioms;

        if let Some(val) = self.0.get(&c.internal) {
            c.internal = *val;
        }
    }

    /// Builds a plugboard from a list of character pairs, registering both
    /// directions of each pair; only ASCII letters are accepted.
    #[verifier::loop_isolation(false)]
    pub fn from_pairs(pairs: &Vec<(char, char)>) -> (r: EnigmaResult<Steckerbrett>)
        ensures
            pairs_ok(pairs@) ==> (r matches Ok(s) && s.0@ == spec_build_pairs(pairs@) && s.wf()),
            !pairs_ok(pairs@) ==> r == Err::<Steckerbrett, _>(first_pair_error(pairs@, 0)),
    {
        broadcast use vstd::std_specs::hash::group_hash_axioms;

        let mut z = Steckerbrett(HashMap::new());
        let mut i: usize = 0;
        while i < pairs.len()
            invariant
                i <= pairs@.len(),
                forall|k: int|
                    0 <= k < i ==> is_letter((#[trigger] pairs@[k]).0) && is_letter(pairs@[k].1),
                z.0@ == spec_build_pairs(pairs@.take(i as int)),
                z.wf(),
            decreases pairs@.len() - i,
        {
            let (c, d) = pairs[i];
            let ec = match EnigmaChar::from_char(c) {
                Ok(e) => e,
                Err(err) => {
                    proof {
                        lemma_pair_error_skip(pairs@, i as int);
                    }
                    return Err(err);
                },
            };
            let ed = match EnigmaChar::from_char(d) {
                Ok(e) => e,
                Err(err) => {
                    proof {
                        lemma_pair_error_skip(pairs@, i as int);
                    }
                    return Err(err);
                },
            };
            z.0.insert(ec.internal, ed.internal);
            z.0.insert(ed.internal, ec.internal);
            proof {
                assert(pairs@.take(i + 1).drop_last() =~= pairs@.take(i as int));
            }
            i += 1;
        }
        proof {
            assert(pairs@.take(pairs@.len() as int) =~= pairs@);
        }
        Ok(z)
    }

    /// Builds a plugboard from a whitespace-separated string of two-letter
    /// tokens, such as `"AE IO ML"`.
    #[verifier::loop_isolation(false)]
    pub fn from_str(value: &str) -> (r: EnigmaResult<Steckerbrett>)
        ensures
            spec_parse_pairs(value@) is None ==> (r matches Err(e) && e matches
                EnigmaError::InvalidSteckerbrettString(t) && t@ == value@),
            spec_parse_pairs(value@) matches Some(ps) ==> (if pairs_ok(ps) {
                r matches Ok(s) && s.0@ == spec_build_pairs(ps) && s.wf()
            } else {
                r == Err::<Steckerbrett, _>(first_pair_error(ps, 0))
            }),
    {
        let n = value.unicode_len();
        let mut pairs: Vec<(char, char)> = Vec::new();
        let mut i: usize = 0;
        proof {
            assert(value@.skip(0) =~= value@);
            match spec_parse_pairs(value@) {
                Some(rest) => {
                    assert(pairs@ + rest =~= rest);
                },
                None => {},
            }
        }
        while i < n
            invariant
                i <= n,
                n == value@.len(),
                spec_parse_pairs(value@) == (match spec_parse_pairs(value@.skip(i as int)) {
                    Some(rest) => Some(pairs@ + rest),
                    None => None::<Seq<(char, char)>>,
                }),
            decreases n - i,
        {
            let c0 = value.get_char(i);
            if is_space_exec(c0) {
                proof {
                    assert(value@.skip(i as int).drop_first() =~= value@.skip(i + 1));
                }
                i += 1;
            } else if i + 1 < n && !is_space_exec(value.get_char(i + 1)) && (i + 2 == n
                || is_space_exec(value.get_char(i + 2))) {
                let c1 = value.get_char(i + 1);
                pairs.push((c0, c1));
                proof {
                    let suf = value@.skip(i as int);
                    assert(suf.skip(2) =~= value@.skip(i + 2));
                    assert(suf[0] == value@[i as int] && suf[1] == value@[i + 1]);
                    assert(spec_parse_pairs(value@.skip(i as int)) == (
                    match spec_parse_pairs(value@.skip(i + 2)) {
                        Some(rest) => Some(seq![(suf[0], suf[1])] + rest),
                        None => None::<Seq<(char, char)>>,
                    }));
                }
                i += 2;
            } else {
                proof {
                    let suf = value@.skip(i as int);
                    assert(suf.len() >= 1 && !is_space(suf[0]));
                    assert(spec_parse_pairs(suf) is None);
                }
                return Err(EnigmaError::InvalidSteckerbrettString(value.to_owned()));
            }
        }
        proof {
            assert(value@.skip(n as int) =~= Seq::<char>::empty());
            assert(pairs@ + Seq::<(char, char)>::empty() =~= pairs@);
        }
        Self::from_pairs(&pairs)
    }
}

/// Whether a character separates plugboard tokens.
fn is_space_exec(c: char) -> (r: bool)
    ensures
        r == is_space(c),
{
    c == ' ' || c == '\t' || c == '\n' || c == '\r' || c == '\u{0B}' || c == '\u{0C}'
}

} // verus!

verus! {

/// A fully defined M3 Enigma machine: a reflector, three rotors ordered
/// left to right (left closest to the reflector), and a plugboard.
pub struct Enigma {
    /// Reflector rotor
    pub ukw: Rotor,
    /// Left rotor (rotor 1)
    pub rotor_l: Rotor,
    /// Middle rotor (rotor 2)
    pub rotor_m: Rotor,
    /// Right rotor (rotor 3)
    pub rotor_r: Rotor,
    /// Plugboard
    pub steckerbrett: Steckerbrett,
}

/// A rotor advanced by one step, wiring unchanged.
pub open spec fn spec_stepped(r: Rotor) -> Rotor {
    Rotor { wiring: r.wiring, position: next_position(r.position as int) as u8 }
}

impl Enigma {
    /// All rotors and the plugboard are well formed.
    pub open spec fn wf(self) -> bool {
        &&& self.ukw.wf()
        &&& self.rotor_l.wf()
        &&& self.rotor_m.wf()
        &&& self.rotor_r.wf()
        &&& self.steckerbrett.wf()
    }

    /// The machine after one step-cycle: the right rotor always steps; the
    /// middle rotor steps when the right rotor stood on its notch; when the
    /// middle rotor itself stood on its notch it steps again and carries
    /// the left rotor with it (the double-step anomaly).  Both notch flags
    /// are read before any rotor moves.
    pub open spec fn spec_turned(self) -> Enigma {
        let notch_r = self.rotor_r.spec_at_notch();
        let notch_m = self.rotor_m.spec_at_notch();
        let stepped_r = spec_stepped(self.rotor_r);
        let m1 = if notch_r {
            spec_stepped(self.rotor_m)
        } else {
            self.rotor_m
        };
        let m2 = if notch_m {
            spec_stepped(m1)
        } else {
            m1
        };
        let l1 = if notch_m {
            spec_stepped(self.rotor_l)
        } else {
            self.rotor_l
        };
        Enigma { rotor_l: l1, rotor_m: m2, rotor_r: stepped_r, ..self }
    }

    /// The forward pass of a signal: right, middle, then left rotor.
    pub open spec fn spec_forward_pass(self, x: int) -> int {
        spec_transform(
            self.rotor_l.spec_table(false),
            self.rotor_l.position as int,
            spec_transform(
                self.rotor_m.spec_table(false),
                self.rotor_m.position as int,
                spec_transform(self.rotor_r.spec_table(false), self.rotor_r.position as int, x),
            ),
        )
    }

    /// The reverse pass of a signal: left, middle, then right rotor.
    pub open spec fn spec_reverse_pass(self, x: int) -> int {
        spec_transform(
            self.rotor_r.spec_table(true),
            self.rotor_r.position as int,
            spec_transform(
                self.rotor_m.spec_table(true),
                self.rotor_m.position as int,
                spec_transform(self.rotor_l.spec_table(true), self.rotor_l.position as int, x),
            ),
        )
    }

    /// The position a signal leaves at when one letter enters at position
    /// `i`, with the rotors already stepped: plugboard, forward pass,
    /// reflector, reverse pass, plugboard again.
    #[verifier::opaque]
    pub open spec fn spec_signal(self, i: int) -> int {
        let a = spec_stecker(self.steckerbrett.0@, i as u8) as int;
        let b = self.spec_forward_pass(a);
        let c = spec_transform(self.ukw.spec_table(false), self.ukw.position as int, b);
        let d = self.spec_reverse_pass(c);
        spec_stecker(self.steckerbrett.0@, d as u8) as int
    }

    /// The full effect of encoding one letter: the rotors step once, then
    /// the letter passes the signal path; its case is kept.
    pub open spec fn spec_encode_char(self, c: char) -> char {
        letter_at(self.spec_turned().spec_signal(letter_index(c)), is_upper(c))
    }

    /// Creates a new enigma machine with the specified custom wirings, all
    /// rotors at position 0.
    pub fn new(
        ukw: Wiring,
        wiring_l: Wiring,
        wiring_m: Wiring,
        wiring_r: Wiring,
        stecker: Steckerbrett,
    ) -> (r: Enigma)
        ensures
            r.ukw == (Rotor { wiring: ukw, position: 0 }),
            r.rotor_l == (Rotor { wiring: wiring_l, position: 0 }),
            r.rotor_m == (Rotor { wiring: wiring_m, position: 0 }),
            r.rotor_r == (Rotor { wiring: wiring_r, position: 0 }),
            r.steckerbrett == stecker,
            ukw.wf() && wiring_l.wf() && wiring_m.wf() && wiring_r.wf() && stecker.wf()
                ==> r.wf(),
    {
        Enigma {
            ukw: Rotor::new(ukw),
            rotor_l: Rotor::new(wiring_l),
            rotor_m: Rotor::new(wiring_m),
            rotor_r: Rotor::new(wiring_r),
            steckerbrett: stecker,
        }
    }

    /// Creates a new Enigma M3 machine with the specified standard wirings,
    /// each retrieved as a fresh copy from the catalog.
    pub fn standard(
        ukw: StandardWiring,
        wiring_l: StandardWiring,
        wiring_m: StandardWiring,
        wiring_r: StandardWiring,
        stecker: Steckerbrett,
    ) -> (r: Enigma)
        ensures
            r.ukw.position == 0 && r.ukw.wiring.wf() && r.ukw.wiring.wiring@
                == ukw.spec_forward() && (r.ukw.wiring.notch_1, r.ukw.wiring.notch_2)
                == ukw.spec_notches(),
            r.rotor_l.position == 0 && r.rotor_l.wiring.wf() && r.rotor_l.wiring.wiring@
                == wiring_l.spec_forward() && (r.rotor_l.wiring.notch_1, r.rotor_l.wiring.notch_2)
                == wiring_l.spec_notches(),
            r.rotor_m.position == 0 && r.rotor_m.wiring.wf() && r.rotor_m.wiring.wiring@
                == wiring_m.spec_forward() && (r.rotor_m.wiring.notch_1, r.rotor_m.wiring.notch_2)
                == wiring_m.spec_notches(),
            r.rotor_r.position == 0 && r.rotor_r.wiring.wf() && r.rotor_r.wiring.wiring@
                == wiring_r.spec_forward() && (r.rotor_r.wiring.notch_1, r.rotor_r.wiring.notch_2)
                == wiring_r.spec_notches(),
            r.steckerbrett == stecker,
            stecker.wf() ==> r.wf(),
    {
        Self::new(ukw.wiring(), wiring_l.wiring(), wiring_m.wiring(), wiring_r.wiring(), stecker)
    }

    /// Rotates the rotors by one step-cycle, snapshotting both notch flags
    /// before any rotor moves.
    fn turn_rotors(&mut self)
        requires
            old(self).wf(),
        ensures
            *final(self) == old(self).spec_turned(),
            final(self).wf(),
    {
        let notch_r = self.rotor_r.has_notch();
        let notch_m = self.rotor_m.has_notch();

        self.rotor_r.rotate();
        if notch_r {
            self.rotor_m.rotate();
        }
        if notch_m {
            self.rotor_m.rotate();
            self.rotor_l.rotate();
        }
    }

    /// Runs a single character through the machine and renders the result.
    pub fn get_for_char(&mut self, c: char) -> (r: EnigmaResult<char>)
        requires
            old(self).wf(),
        ensures
            final(self).wf(),
            !is_letter(c) ==> r == Err::<char, _>(EnigmaError::UnsupportedCharacter(c))
                && *final(self) == *old(self),
            is_letter(c) ==> *final(self) == old(self).spec_turned() && r == Ok::<_, EnigmaError>(
                old(self).spec_encode_char(c),
            ),
    {
        match self._internal_get_for_char(c) {
            Ok(e) => Ok(e.to_char()),
            Err(e) => Err(e),
        }
    }

    /// Runs a single character through the machine: converts it, steps the
    /// rotors, and sends it through plugboard, rotors, reflector and back.
    /// An inconvertible character is reported as unsupported and the
    /// rotors do not move.
    fn _internal_get_for_char(&mut self, c: char) -> (r: EnigmaResult<EnigmaChar>)
        requires
            old(self).wf(),
        ensures
            final(self).wf(),
            !is_letter(c) ==> r == Err::<EnigmaChar, _>(EnigmaError::UnsupportedCharacter(c))
                && *final(self) == *old(self),
            is_letter(c) ==> {
                &&& *final(self) == old(self).spec_turned()
                &&& 0 <= old(self).spec_turned().spec_signal(letter_index(c)) < 26
                &&& r == Ok::<_, EnigmaError>(
                    EnigmaChar {
                        internal: old(self).spec_turned().spec_signal(letter_index(c)) as u8,
                        uppercase: is_upper(c),
                    },
                )
            },
    {
        let mut ec = match EnigmaChar::from_char(c) {
            Ok(e) => e,
            Err(_) => {
                return Err(EnigmaError::UnsupportedCharacter(c));
            },
        };

        self.turn_rotors();

        self.steckerbrett.get(&mut ec);
        let _ = self.rotor_r.get_for(&mut ec, false);
        let _ = self.rotor_m.get_for(&mut ec, false);
        let _ = self.rotor_l.get_for(&mut ec, false);

        let _ = self.ukw.get_for(&mut ec, false);

        let _ = self.rotor_l.get_for(&mut ec, true);
        let _ = self.rotor_m.get_for(&mut ec, true);
        let _ = self.rotor_r.get_for(&mut ec, true);
        self.steckerbrett.get(&mut ec);

        proof {
            reveal(Enigma::spec_signal);
        }
        Ok(ec)
    }
}

} // verus!

verus! {

/// An optional position character is acceptable when absent or a letter.
pub open spec fn opt_ok(o: Option<char>) -> bool {
    o matches Some(c) ==> is_letter(c)
}

/// The position selected by an optional character, keeping `old` where the
/// character is absent.
pub open spec fn opt_pos(o: Option<char>, old: u8) -> u8 {
    match o {
        Some(c) => letter_index(c) as u8,
        None => old,
    }
}

/// Relies on String::push: appends exactly the given character at the end.
#[verifier::external_body]
fn push_char(s: &mut String, c: char)
    ensures
        final(s)@ == old(s)@.push(c),
{
    s.push(c);
}

impl Enigma {
    /// The machine with the three rotor positions replaced.
    pub open spec fn spec_positioned(self, l: u8, m: u8, r: u8) -> Enigma {
        Enigma {
            rotor_l: Rotor { wiring: self.rotor_l.wiring, position: l },
            rotor_m: Rotor { wiring: self.rotor_m.wiring, position: m },
            rotor_r: Rotor { wiring: self.rotor_r.wiring, position: r },
            ..self
        }
    }

    /// Sets the rotors' positions; an absent character leaves that rotor
    /// where it stands.  Rotors are set left to right, so on an invalid
    /// character the rotors before it keep their new positions.
    pub fn set_position(
        &mut self,
        rotor_l: Option<char>,
        rotor_m: Option<char>,
        rotor_r: Option<char>,
    ) -> (r: EnigmaResult<()>)
        requires
            old(self).wf(),
        ensures
            final(self).wf(),
            !opt_ok(rotor_l) ==> (rotor_l matches Some(c) && r == Err::<(), _>(
                EnigmaError::InvalidChar(c),
            )) && *final(self) == *old(self),
            opt_ok(rotor_l) && !opt_ok(rotor_m) ==> (rotor_m matches Some(c) && r == Err::<
                (),
                _,
            >(EnigmaError::InvalidChar(c))) && *final(self) == old(self).spec_positioned(
                opt_pos(rotor_l, old(self).rotor_l.position),
                old(self).rotor_m.position,
                old(self).rotor_r.position,
            ),
            opt_ok(rotor_l) && opt_ok(rotor_m) && !opt_ok(rotor_r) ==> (rotor_r matches Some(c)
                && r == Err::<(), _>(EnigmaError::InvalidChar(c))) && *final(self) == old(
                self,
            ).spec_positioned(
                opt_pos(rotor_l, old(self).rotor_l.position),
                opt_pos(rotor_m, old(self).rotor_m.position),
                old(self).rotor_r.position,
            ),
            opt_ok(rotor_l) && opt_ok(rotor_m) && opt_ok(rotor_r) ==> r == Ok::<(), EnigmaError>(
                (),
            ) && *final(self) == old(self).spec_positioned(
                opt_pos(rotor_l, old(self).rotor_l.position),
                opt_pos(rotor_m, old(self).rotor_m.position),
                opt_pos(rotor_r, old(self).rotor_r.position),
            ),
    {
        if let Some(c) = rotor_l {
            let ec = match EnigmaChar::from_char(c) {
                Ok(e) => e,
                Err(err) => {
                    return Err(err);
                },
            };
            let _ = self.rotor_l.set_position(&ec);
        }
        if let Some(c) = rotor_m {
            let ec = match EnigmaChar::from_char(c) {
                Ok(e) => e,
                Err(err) => {
                    return Err(err);
                },
            };
            let _ = self.rotor_m.set_position(&ec);
        }
        if let Some(c) = rotor_r {
            let ec = match EnigmaChar::from_char(c) {
                Ok(e) => e,
                Err(err) => {
                    return Err(err);
                },
            };
            let _ = self.rotor_r.set_position(&ec);
        }
        Ok(())
    }

    /// The state and result of setting the three positions from the three
    /// characters of a position string, left to right.
    pub open spec fn spec_set3(self, s: Seq<char>) -> (Enigma, EnigmaResult<()>) {
        if !is_letter(s[0]) {
            (self, Err(EnigmaError::InvalidChar(s[0])))
        } else if !is_letter(s[1]) {
            (
                self.spec_positioned(
                    letter_index(s[0]) as u8,
                    self.rotor_m.position,
                    self.rotor_r.position,
                ),
                Err(EnigmaError::InvalidChar(s[1])),
            )
        } else if !is_letter(s[2]) {
            (
                self.spec_positioned(
                    letter_index(s[0]) as u8,
                    letter_index(s[1]) as u8,
                    self.rotor_r.position,
                ),
                Err(EnigmaError::InvalidChar(s[2])),
            )
        } else {
            (
                self.spec_positioned(
                    letter_index(s[0]) as u8,
                    letter_index(s[1]) as u8,
                    letter_index(s[2]) as u8,
                ),
                Ok(()),
            )
        }
    }

    /// Sets the rotors' positions from a three-character string, one
    /// character per rotor, left to right.
    pub fn set_position_str(&mut self, position: &str) -> (r: EnigmaResult<()>)
        requires
            old(self).wf(),
        ensures
            final(self).wf(),
            position@.len() != 3 ==> (r matches Err(e) && e matches EnigmaError::InvalidPosition(
                t,
            ) && t@ == position@) && *final(self) == *old(self),
            position@.len() == 3 ==> *final(self) == old(self).spec_set3(position@).0 && r == old(
                self,
            ).spec_set3(position@).1,
    {
        let n = position.unicode_len();
        if n != 3 {
            return Err(EnigmaError::InvalidPosition(position.to_owned()));
        }

        let c0 = position.get_char(0);
        let c1 = position.get_char(1);
        let c2 = position.get_char(2);
        self.set_position(Some(c0), Some(c1), Some(c2))
    }

    /// Returns the rotors' positions, left to right, rendered uppercase.
    pub fn get_position(&self) -> (r: [char; 3])
        requires
            self.wf(),
        ensures
            r@ == seq![
                letter_at(self.rotor_l.position as int, true),
                letter_at(self.rotor_m.position as int, true),
                letter_at(self.rotor_r.position as int, true),
            ],
    {
        let r: [char; 3] = [
            self.rotor_l.get_position().to_char(),
            self.rotor_m.get_position().to_char(),
            self.rotor_r.get_position().to_char(),
        ];
        proof {
            assert(r@ =~= seq![
                letter_at(self.rotor_l.position as int, true),
                letter_at(self.rotor_m.position as int, true),
                letter_at(self.rotor_r.position as int, true),
            ]);
        }
        r
    }

    /// Returns the rotors' positions as a three-character string, left to
    /// right, rendered uppercase.
    pub fn get_position_str(&self) -> (r: String)
        requires
            self.wf(),
        ensures
            r@ == seq![
                letter_at(self.rotor_l.position as int, true),
                letter_at(self.rotor_m.position as int, true),
                letter_at(self.rotor_r.position as int, true),
            ],
    {
        let pos = self.get_position();
        let mut out = String::new();
        push_char(&mut out, pos[0]);
        push_char(&mut out, pos[1]);
        push_char(&mut out, pos[2]);
        proof {
            assert(out@ =~= seq![
                letter_at(self.rotor_l.position as int, true),
                letter_at(self.rotor_m.position as int, true),
                letter_at(self.rotor_r.position as int, true),
            ]);
        }
        out
    }
}

} // verus!

verus! {

/// The machine state and output after encoding a whole text, character by
/// character: letters step the rotors and pass the signal path, keeping
/// their case only when asked to; other characters leave the machine
/// unmoved and appear in the output only when asked to.
pub open spec fn spec_encode_str(
    e: Enigma,
    s: Seq<char>,
    preserve_unsupported: bool,
    preserve_case: bool,
) -> (Enigma, Seq<char>)
    decreases s.len(),
{
    if s.len() == 0 {
        (e, Seq::empty())
    } else {
        let c = s[0];
        if is_letter(c) {
            let e1 = e.spec_turned();
            let oc = letter_at(
                e1.spec_signal(letter_index(c)),
                if preserve_case {
                    is_upper(c)
                } else {
                    true
                },
            );
            let t = spec_encode_str(e1, s.drop_first(), preserve_unsupported, preserve_case);
            (t.0, seq![oc] + t.1)
        } else {
            let t = spec_encode_str(e, s.drop_first(), preserve_unsupported, preserve_case);
            (
                t.0,
                if preserve_unsupported {
                    seq![c] + t.1
                } else {
                    t.1
                },
            )
        }
    }
}

impl Enigma {
    /// Encodes a whole text with this machine, stepping the rotors once for
    /// each letter.  Unsupported characters are kept or dropped as
    /// `preserve_unsupported` says; output case follows the input exactly
    /// when `preserve_case` is set and is uppercase otherwise.
    #[verifier::loop_isolation(false)]
    pub fn get_for_str(
        &mut self,
        text: &str,
        preserve_unsupported: bool,
        preserve_case: bool,
    ) -> (r: EnigmaResult<String>)
        requires
            old(self).wf(),
        ensures
            final(self).wf(),
            *final(self) == spec_encode_str(
                *old(self),
                text@,
                preserve_unsupported,
                preserve_case,
            ).0,
            r matches Ok(out) && out@ == spec_encode_str(
                *old(self),
                text@,
                preserve_unsupported,
                preserve_case,
            ).1,
    {
        let mut out = String::new();
        let n = text.unicode_len();
        let mut i: usize = 0;
        proof {
            assert(text@.skip(0) =~= text@);
            let t = spec_encode_str(*self, text@, preserve_unsupported, preserve_case);
            assert(out@ + t.1 =~= t.1);
        }
        while i < n
            invariant
                i <= n,
                n == text@.len(),
                self.wf(),
                spec_encode_str(*old(self), text@, preserve_unsupported, preserve_case) == ({
                    let t = spec_encode_str(
                        *self,
                        text@.skip(i as int),
                        preserve_unsupported,
                        preserve_case,
                    );
                    (t.0, out@ + t.1)
                }),
            decreases n - i,
        {
            let ghost pre = *self;
            let ghost outpre = out@;
            let ghost s_i = text@.skip(i as int);
            let c = text.get_char(i);
            proof {
                assert(s_i[0] == text@[i as int]);
                assert(s_i.drop_first() =~= text@.skip(i as int + 1));
            }
            match self._internal_get_for_char(c) {
                Ok(mut ec) => {
                    if !preserve_case {
                        ec.uppercase = true;
                    }
                    let oc = ec.to_char();
                    push_char(&mut out, oc);
                    proof {
                        let t = spec_encode_str(
                            *self,
                            text@.skip(i as int + 1),
                            preserve_unsupported,
                            preserve_case,
                        );
                        assert(out@ =~= outpre + seq![oc]);
                        assert(outpre + (seq![oc] + t.1) =~= (outpre + seq![oc]) + t.1);
                    }
                },
                Err(EnigmaError::UnsupportedCharacter(c2)) => {
                    if preserve_unsupported {
                        push_char(&mut out, c2);
                        proof {
                            let t = spec_encode_str(
                                *self,
                                text@.skip(i as int + 1),
                                preserve_unsupported,
                                preserve_case,
                            );
                            assert(out@ =~= outpre + seq![c2]);
                            assert(outpre + (seq![c2] + t.1) =~= (outpre + seq![c2]) + t.1);
                        }
                    }
                },
                Err(e) => {
                    return Err(e);
                },
            }
            i += 1;
        }
        proof {
            assert(text@.skip(n as int) =~= Seq::<char>::empty());
            let t = spec_encode_str(
                *self,
                text@.skip(n as int),
                preserve_unsupported,
                preserve_case,
            );
            assert(out@ + t.1 =~= out@);
        }
        Ok(out)
    }
}

} // verus!

verus! {

/// A table that sends every position straight back where it came from, as
/// the historical reflectors do.
pub open spec fn spec_involution(t: Seq<u8>) -> bool {
    forall|i: int| 0 <= i < 26 ==> t[#[trigger] t[i] as int] == i
}

/// A letter rendered from a position reads back as that position, in the
/// case it was rendered with.
pub proof fn lemma_letter_at_props(v: int, uppercase: bool)
    requires
        0 <= v < 26,
    ensures
        is_letter(letter_at(v, uppercase)),
        letter_index(letter_at(v, uppercase)) == v,
        is_upper(letter_at(v, uppercase)) == uppercase,
{
}

/// Rendering a letter's position in the letter's own case gives the letter
/// back.
pub proof fn lemma_letter_roundtrip(c: char)
    requires
        is_letter(c),
    ensures
        letter_at(letter_index(c), is_upper(c)) == c,
{
}

/// One step-cycle keeps the machine well formed.
pub proof fn lemma_turned_wf(e: Enigma)
    requires
        e.wf(),
    ensures
        e.spec_turned().wf(),
{
}

/// A symmetric plugboard undoes itself on every position.
proof fn lemma_stecker_involution(m: Map<u8, u8>, i: u8)
    requires
        stecker_wf(m),
        stecker_symmetric(m),
        i < 26,
    ensures
        spec_stecker(m, i) < 26,
        spec_stecker(m, spec_stecker(m, i)) == i,
{
}

/// The signal path keeps every signal inside the 26 positions.
pub proof fn lemma_signal_range(e: Enigma, i: int)
    requires
        e.wf(),
        0 <= i < 26,
    ensures
        0 <= e.spec_signal(i) < 26,
{
    reveal(Enigma::spec_signal);
    let a = spec_stecker(e.steckerbrett.0@, i as u8) as int;
    crate::rotor::lemma_transform_range(
        e.rotor_r.spec_table(false),
        e.rotor_r.position as int,
        a,
    );
    let x1 = spec_transform(e.rotor_r.spec_table(false), e.rotor_r.position as int, a);
    crate::rotor::lemma_transform_range(
        e.rotor_m.spec_table(false),
        e.rotor_m.position as int,
        x1,
    );
    let x2 = spec_transform(e.rotor_m.spec_table(false), e.rotor_m.position as int, x1);
    crate::rotor::lemma_transform_range(
        e.rotor_l.spec_table(false),
        e.rotor_l.position as int,
        x2,
    );
    let b = e.spec_forward_pass(a);
    crate::rotor::lemma_transform_range(e.ukw.spec_table(false), e.ukw.position as int, b);
    let c = spec_transform(e.ukw.spec_table(false), e.ukw.position as int, b);
    crate::rotor::lemma_transform_range(e.rotor_l.spec_table(true), e.rotor_l.position as int, c);
    let y1 = spec_transform(e.rotor_l.spec_table(true), e.rotor_l.position as int, c);
    crate::rotor::lemma_transform_range(e.rotor_m.spec_table(true), e.rotor_m.position as int, y1);
    let y2 = spec_transform(e.rotor_m.spec_table(true), e.rotor_m.position as int, y1);
    crate::rotor::lemma_transform_range(e.rotor_r.spec_table(true), e.rotor_r.position as int, y2);
}

/// The reverse pass undoes the forward pass and the other way round.
proof fn lemma_passes_inverse(e: Enigma, x: int)
    requires
        e.wf(),
        0 <= x < 26,
    ensures
        0 <= e.spec_forward_pass(x) < 26,
        0 <= e.spec_reverse_pass(x) < 26,
        e.spec_reverse_pass(e.spec_forward_pass(x)) == x,
        e.spec_forward_pass(e.spec_reverse_pass(x)) == x,
{
    let pr = e.rotor_r.position as int;
    let pm = e.rotor_m.position as int;
    let pl = e.rotor_l.position as int;

    let f1 = spec_transform(e.rotor_r.spec_table(false), pr, x);
    crate::rotor::lemma_transform_range(e.rotor_r.spec_table(false), pr, x);
    let f2 = spec_transform(e.rotor_m.spec_table(false), pm, f1);
    crate::rotor::lemma_transform_range(e.rotor_m.spec_table(false), pm, f1);
    let f3 = spec_transform(e.rotor_l.spec_table(false), pl, f2);
    crate::rotor::lemma_transform_range(e.rotor_l.spec_table(false), pl, f2);
    crate::rotor::lemma_transform_inverse(e.rotor_l.wiring, pl, f2);
    crate::rotor::lemma_transform_inverse(e.rotor_m.wiring, pm, f1);
    crate::rotor::lemma_transform_inverse(e.rotor_r.wiring, pr, x);

    let r1 = spec_transform(e.rotor_l.spec_table(true), pl, x);
    crate::rotor::lemma_transform_range(e.rotor_l.spec_table(true), pl, x);
    let r2 = spec_transform(e.rotor_m.spec_table(true), pm, r1);
    crate::rotor::lemma_transform_range(e.rotor_m.spec_table(true), pm, r1);
    let r3 = spec_transform(e.rotor_r.spec_table(true), pr, r2);
    crate::rotor::lemma_transform_range(e.rotor_r.spec_table(true), pr, r2);
    crate::rotor::lemma_transform_inverse(e.rotor_r.wiring, pr, r2);
    crate::rotor::lemma_transform_inverse(e.rotor_m.wiring, pm, r1);
    crate::rotor::lemma_transform_inverse(e.rotor_l.wiring, pl, x);
}

/// A reflector whose table is an involution reflects at any offset: passing
/// a signal through it twice returns the signal.
proof fn lemma_reflect_involution(w: Wiring, p: int, b: int)
    requires
        w.wf(),
        spec_involution(w.wiring@),
        0 <= p < 26,
        0 <= b < 26,
    ensures
        0 <= spec_transform(w.wiring@, p, b) < 26,
        spec_transform(w.wiring@, p, spec_transform(w.wiring@, p, b)) == b,
{
    let s = (b + p) % 26;
    assert(0 <= s < 26);
    let o = spec_transform(w.wiring@, p, b);
    assert((o + p) % 26 == w.wiring@[s] as int);
    assert(w.wiring@[w.wiring@[s] as int] == s);
    assert(spec_transform(w.wiring@, p, o) == (s + 26 - p) % 26);
    assert((s + 26 - p) % 26 == b);
}

/// The whole signal path is an involution: with a symmetric plugboard and
/// an involutory reflector, sending a signal through the machine twice at
/// the same rotor positions returns the original signal.
pub proof fn lemma_signal_involution(e: Enigma, i: int)
    requires
        e.wf(),
        stecker_symmetric(e.steckerbrett.0@),
        spec_involution(e.ukw.wiring.wiring@),
        0 <= i < 26,
    ensures
        0 <= e.spec_signal(i) < 26,
        e.spec_signal(e.spec_signal(i)) == i,
{
    reveal(Enigma::spec_signal);
    lemma_signal_range(e, i);
    let m = e.steckerbrett.0@;
    let a = spec_stecker(m, i as u8) as int;
    lemma_stecker_involution(m, i as u8);
    let b = e.spec_forward_pass(a);
    lemma_passes_inverse(e, a);
    let c = spec_transform(e.ukw.spec_table(false), e.ukw.position as int, b);
    lemma_reflect_involution(e.ukw.wiring, e.ukw.position as int, b);
    let d = e.spec_reverse_pass(c);
    lemma_passes_inverse(e, c);
    let f = spec_stecker(m, d as u8) as int;
    lemma_stecker_involution(m, d as u8);

    // The second pass retraces the first, stage by stage.
    assert(e.spec_signal(i) == f);
    assert(spec_stecker(m, f as u8) as int == d);
    lemma_passes_inverse(e, d);
    assert(e.spec_forward_pass(d) == c);
    assert(spec_transform(e.ukw.spec_table(false), e.ukw.position as int, c) == b);
    assert(e.spec_reverse_pass(b) == a);
    assert(spec_stecker(m, a as u8) as int == i);
}

/// Encoding is self-inverse: with the plugboard symmetric, the reflector an
/// involution and the rotors reset to the same starting positions, encoding
/// an encoded character returns the original character, case included.
pub proof fn lemma_encode_involution(e: Enigma, c: char)
    requires
        e.wf(),
        stecker_symmetric(e.steckerbrett.0@),
        spec_involution(e.ukw.wiring.wiring@),
        is_letter(c),
    ensures
        is_letter(e.spec_encode_char(c)),
        e.spec_encode_char(e.spec_encode_char(c)) == c,
{
    let e1 = e.spec_turned();
    lemma_turned_wf(e);
    let i = letter_index(c);
    lemma_signal_involution(e1, i);
    let o = e1.spec_signal(i);
    let c2 = letter_at(o, is_upper(c));
    lemma_letter_at_props(o, is_upper(c));
    assert(e.spec_encode_char(c) == c2);
    assert(letter_index(c2) == o);
    assert(e1.spec_signal(o) == i);
    lemma_letter_at_props(i, is_upper(c));
    lemma_letter_roundtrip(c);
    assert(e.spec_encode_char(c2) == letter_at(i, is_upper(c2)));
}

} // verus!

verus! {

/// No position appears in two different pairs: endpoints are disjoint
/// across pairs (a pair may still join a letter to itself).
pub open spec fn pairs_disjoint(ps: Seq<(char, char)>) -> bool {
    forall|j: int, k: int|
        0 <= j < k < ps.len() ==> letter_index((#[trigger] ps[j]).0) != letter_index(
            (#[trigger] ps[k]).0,
        ) && letter_index(ps[j].0) != letter_index(ps[k].1) && letter_index(ps[j].1)
            != letter_index(ps[k].0) && letter_index(ps[j].1) != letter_index(ps[k].1)
}

/// Position `x` is an endpoint of some configured pair.
pub open spec fn pair_endpoint(ps: Seq<(char, char)>, x: u8) -> bool {
    exists|k: int|
        0 <= k < ps.len() && (letter_index((#[trigger] ps[k]).0) == x as int || letter_index(
            ps[k].1,
        ) == x as int)
}

/// A plugboard built from disjoint letter pairs swaps exactly those pairs:
/// each configured pair maps to each other in both directions, every
/// unconfigured position maps to itself, and the whole mapping is
/// symmetric.
pub proof fn lemma_plugboard_symmetry(ps: Seq<(char, char)>)
    requires
        pairs_ok(ps),
        pairs_disjoint(ps),
    ensures
        forall|k: int|
            0 <= k < ps.len() ==> ({
                let m = spec_build_pairs(ps);
                let a = letter_index((#[trigger] ps[k]).0) as u8;
                let b = letter_index(ps[k].1) as u8;
                &&& m.contains_key(a)
                &&& m.contains_key(b)
                &&& m[a] == b
                &&& m[b] == a
            }),
        forall|x: u8| #[trigger] spec_build_pairs(ps).contains_key(x) ==> pair_endpoint(ps, x),
        forall|x: u8|
            x < 26 && !pair_endpoint(ps, x) ==> spec_stecker(spec_build_pairs(ps), x) == x,
        stecker_symmetric(spec_build_pairs(ps)),
        stecker_wf(spec_build_pairs(ps)),
    decreases ps.len(),
{
    let m = spec_build_pairs(ps);
    if ps.len() == 0 {
    } else {
        let prefix = ps.drop_last();
        let n = ps.len() - 1;
        assert forall|k: int|
            0 <= k < prefix.len() implies is_letter((#[trigger] prefix[k]).0) && is_letter(
            prefix[k].1,
        ) by {
            assert(prefix[k] == ps[k]);
        }
        assert forall|j: int, k: int|
            0 <= j < k < prefix.len() implies letter_index((#[trigger] prefix[j]).0)
            != letter_index((#[trigger] prefix[k]).0) && letter_index(prefix[j].0) != letter_index(
            prefix[k].1,
        ) && letter_index(prefix[j].1) != letter_index(prefix[k].0) && letter_index(prefix[j].1)
            != letter_index(prefix[k].1) by {
            assert(prefix[j] == ps[j] && prefix[k] == ps[k]);
        }
        lemma_plugboard_symmetry(prefix);
        let m0 = spec_build_pairs(prefix);
        let a = letter_index(ps.last().0) as u8;
        let b = letter_index(ps.last().1) as u8;
        assert(ps.last() == ps[n]);
        assert(m == m0.insert(a, b).insert(b, a));

        // Endpoints of the prefix are endpoints of the whole list, and the
        // new pair's endpoints are its own.
        assert forall|x: u8| #[trigger] m.contains_key(x) implies pair_endpoint(ps, x) by {
            if x == a || x == b {
                assert(letter_index(ps[n].0) == a as int || letter_index(ps[n].1) == b as int);
            } else {
                assert(m0.contains_key(x));
                let k = choose|k: int|
                    0 <= k < prefix.len() && (letter_index((#[trigger] prefix[k]).0) == x as int
                        || letter_index(prefix[k].1) == x as int);
                assert(prefix[k] == ps[k]);
            }
        }

        // Each configured pair still maps both ways.
        assert forall|k: int| 0 <= k < ps.len() implies ({
            let ak = letter_index((#[trigger] ps[k]).0) as u8;
            let bk = letter_index(ps[k].1) as u8;
            &&& m.contains_key(ak)
            &&& m.contains_key(bk)
            &&& m[ak] == bk
            &&& m[bk] == ak
        }) by {
            let ak = letter_index(ps[k].0) as u8;
            let bk = letter_index(ps[k].1) as u8;
            if k == n {
            } else {
                assert(prefix[k] == ps[k]);
                assert(m0.contains_key(ak) && m0.contains_key(bk) && m0[ak] == bk && m0[bk]
                    == ak);
                // The last pair's endpoints are disjoint from pair k's.
                assert(letter_index(ps[k].0) != letter_index(ps[n].0) && letter_index(ps[k].0)
                    != letter_index(ps[n].1) && letter_index(ps[k].1) != letter_index(ps[n].0)
                    && letter_index(ps[k].1) != letter_index(ps[n].1));
                assert(ak != a && ak != b && bk != a && bk != b);
            }
        }

        // Untouched positions stay untouched.
        assert forall|x: u8| x < 26 && !pair_endpoint(ps, x) implies spec_stecker(m, x) == x by {
            if m.contains_key(x) {
                assert(pair_endpoint(ps, x));
            }
        }

        // Symmetry of the whole mapping.
        assert forall|x: u8| #[trigger] m.contains_key(x) implies m.contains_key(m[x]) && m[m[x]]
            == x by {
            let k = choose|k: int|
                0 <= k < ps.len() && (letter_index((#[trigger] ps[k]).0) == x as int
                    || letter_index(ps[k].1) == x as int);
            let ak = letter_index(ps[k].0) as u8;
            let bk = letter_index(ps[k].1) as u8;
            assert(m.contains_key(ak) && m.contains_key(bk) && m[ak] == bk && m[bk] == ak);
        }

        // All endpoints are positions.
        assert forall|x: u8| #[trigger] m.contains_key(x) implies x < 26 && m[x] < 26 by {
            let k = choose|k: int|
                0 <= k < ps.len() && (letter_index((#[trigger] ps[k]).0) == x as int
                    || letter_index(ps[k].1) == x as int);
            let ak = letter_index(ps[k].0) as u8;
            let bk = letter_index(ps[k].1) as u8;
            assert(m[ak] == bk && m[bk] == ak);
        }
    }
}

/// With case preservation enabled, an all-letter text encodes to a text of
/// the same length whose case pattern is exactly the input's.
pub proof fn lemma_case_preservation(e: Enigma, s: Seq<char>, preserve_unsupported: bool)
    requires
        e.wf(),
        forall|i: int| 0 <= i < s.len() ==> is_letter(#[trigger] s[i]),
    ensures
        ({
            let out = spec_encode_str(e, s, preserve_unsupported, true).1;
            &&& out.len() == s.len()
            &&& forall|i: int|
                0 <= i < s.len() ==> is_letter(#[trigger] out[i]) && is_upper(out[i]) == is_upper(
                    s[i],
                )
        }),
    decreases s.len(),
{
    if s.len() > 0 {
        let c = s[0];
        let e1 = e.spec_turned();
        lemma_turned_wf(e);
        lemma_signal_range(e1, letter_index(c));
        let o = e1.spec_signal(letter_index(c));
        lemma_letter_at_props(o, is_upper(c));
        let oc = letter_at(o, is_upper(c));
        assert forall|i: int| 0 <= i < s.drop_first().len() implies is_letter(
            #[trigger] s.drop_first()[i],
        ) by {
            assert(s.drop_first()[i] == s[i + 1]);
        }
        lemma_case_preservation(e1, s.drop_first(), preserve_unsupported);
        let rest = spec_encode_str(e1, s.drop_first(), preserve_unsupported, true).1;
        let out = spec_encode_str(e, s, preserve_unsupported, true).1;
        assert(out == seq![oc] + rest);
        assert forall|i: int| 0 <= i < s.len() implies is_letter(#[trigger] out[i]) && is_upper(
            out[i],
        ) == is_upper(s[i]) by {
            if i == 0 {
                assert(out[0] == oc);
            } else {
                assert(out[i] == rest[i - 1]);
                assert(s.drop_first()[i - 1] == s[i]);
            }
        }
    }
}

} // verus!

verus! {

/// The decimal digit character for a value below ten.
pub open spec fn digit_char(d: int) -> char {
    ((d + 48) as u8) as char
}

/// The decimal rendering of a byte value, without leading zeroes.
pub open spec fn spec_u8_decimal(n: u8) -> Seq<char> {
    if n < 10 {
        seq![digit_char(n as int)]
    } else if n < 100 {
        seq![digit_char(n as int / 10), digit_char(n as int % 10)]
    } else {
        seq![
            digit_char(n as int / 100),
            digit_char((n as int / 10) % 10),
            digit_char(n as int % 10),
        ]
    }
}

fn push_u8_decimal(s: &mut String, n: u8)
    ensures
        final(s)@ == old(s)@ + spec_u8_decimal(n),
{
    if n < 10 {
        push_char(s, (n + 48) as char);
        proof {
            assert(s@ =~= old(s)@ + spec_u8_decimal(n));
        }
    } else if n < 100 {
        push_char(s, (n / 10 + 48) as char);
        push_char(s, (n % 10 + 48) as char);
        proof {
            assert(s@ =~= old(s)@ + spec_u8_decimal(n));
        }
    } else {
        push_char(s, (n / 100 + 48) as char);
        push_char(s, ((n / 10) % 10 + 48) as char);
        push_char(s, (n % 10 + 48) as char);
        proof {
            assert(s@ =~= old(s)@ + spec_u8_decimal(n));
        }
    }
}

impl EnigmaError {
    /// The text that describes this error.
    pub open spec fn spec_message(self) -> Seq<char> {
        match self {
            EnigmaError::InvalidChar(c) => "Cannot index using invalid character: "@ + seq![c],
            EnigmaError::InvalidNumber(n) => "Cannot index using invalid number: "@
                + spec_u8_decimal(n),
            EnigmaError::InvalidPosition(s) => "String '"@ + s@
                + "' cannot be used to set position"@,
            EnigmaError::InvalidSteckerbrettString(s) => "String '"@ + s@
                + "' is not representing valid stecker pairs!"@,
            EnigmaError::UnsupportedCharacter(c) => "Character '"@ + seq![c]
                + "' cannot be encoded"@,
        }
    }

    /// Renders a human-readable description of this error.
    pub fn message(&self) -> (r: String)
        ensures
            r@ == self.spec_message(),
    {
        let mut out = String::new();
        match self {
            EnigmaError::InvalidChar(c) => {
                out.append("Cannot index using invalid character: ");
                push_char(&mut out, *c);
                proof {
                    assert(out@ =~= self.spec_message());
                }
            },
            EnigmaError::InvalidNumber(n) => {
                out.append("Cannot index using invalid number: ");
                push_u8_decimal(&mut out, *n);
                proof {
                    assert(out@ =~= self.spec_message());
                }
            },
            EnigmaError::InvalidPosition(s) => {
                out.append("String '");
                out.append(s.as_str());
                out.append("' cannot be used to set position");
                proof {
                    assert(out@ =~= self.spec_message());
                }
            },
            EnigmaError::InvalidSteckerbrettString(s) => {
                out.append("String '");
                out.append(s.as_str());
                out.append("' is not representing valid stecker pairs!");
                proof {
                    assert(out@ =~= self.spec_message());
                }
            },
            EnigmaError::UnsupportedCharacter(c) => {
                out.append("Character '");
                push_char(&mut out, *c);
                out.append("' cannot be encoded");
                proof {
                    assert(out@ =~= self.spec_message());
                }
            },
        }
        out
    }
}

} // verus!

verus! {

/// One letter at the head of a text contributes one output letter, and the
/// rest of the text is encoded by the stepped machine.
proof fn lemma_encode_str_step(e: Enigma, s: Seq<char>, preserve_unsupported: bool, pc: bool)
    requires
        s.len() > 0,
        is_letter(s[0]),
    ensures
        spec_encode_str(e, s, preserve_unsupported, pc).0 == spec_encode_str(
            e.spec_turned(),
            s.drop_first(),
            preserve_unsupported,
            pc,
        ).0,
        spec_encode_str(e, s, preserve_unsupported, pc).1 == seq![
            letter_at(
                e.spec_turned().spec_signal(letter_index(s[0])),
                if pc {
                    is_upper(s[0])
                } else {
                    true
                },
            ),
        ] + spec_encode_str(e.spec_turned(), s.drop_first(), preserve_unsupported, pc).1,
{
}

/// The whole-text form of the self-inverse property: with a symmetric
/// plugboard, an involutory reflector, and the rotors reset to the same
/// starting positions, encoding an encoded all-letter text returns the
/// original text, case included.
#[verifier::spinoff_prover]
#[verifier::rlimit(100)]
pub proof fn lemma_text_involution(e: Enigma, s: Seq<char>, preserve_unsupported: bool)
    requires
        e.wf(),
        stecker_symmetric(e.steckerbrett.0@),
        spec_involution(e.ukw.wiring.wiring@),
        forall|i: int| 0 <= i < s.len() ==> is_letter(#[trigger] s[i]),
    ensures
        spec_encode_str(
            e,
            spec_encode_str(e, s, preserve_unsupported, true).1,
            preserve_unsupported,
            true,
        ).1 == s,
    decreases s.len(),
{
    let enc = spec_encode_str(e, s, preserve_unsupported, true).1;
    if s.len() == 0 {
        assert(spec_encode_str(e, enc, preserve_unsupported, true).1 =~= s);
    } else {
        let c = s[0];
        let e1 = e.spec_turned();
        lemma_turned_wf(e);
        lemma_signal_involution(e1, letter_index(c));
        let o = e1.spec_signal(letter_index(c));
        lemma_letter_at_props(o, is_upper(c));
        lemma_letter_roundtrip(c);
        let oc = letter_at(o, is_upper(c));
        let rest_enc = spec_encode_str(e1, s.drop_first(), preserve_unsupported, true).1;
        lemma_encode_str_step(e, s, preserve_unsupported, true);
        assert(enc == seq![oc] + rest_enc);
        assert(enc[0] == oc);
        assert(enc.drop_first() =~= rest_enc);
        assert forall|i: int| 0 <= i < s.drop_first().len() implies is_letter(
            #[trigger] s.drop_first()[i],
        ) by {
            assert(s.drop_first()[i] == s[i + 1]);
        }
        lemma_text_involution(e1, s.drop_first(), preserve_unsupported);
        lemma_encode_str_step(e, enc, preserve_unsupported, true);
        assert(letter_at(e1.spec_signal(letter_index(oc)), is_upper(oc)) == c);
        assert(spec_encode_str(e, enc, preserve_unsupported, true).1 =~= s);
    }
}

} // verus!
