use vstd::prelude::*;
use vstd::set_lib::{lemma_int_range, lemma_len_subset, set_int_range};
use crate::{is_letter, letter_index, EnigmaChar, EnigmaError, EnigmaResult};

verus! {

/// Internal wiring schema of a rotor: a permutation of the 26 alphabet
/// positions, its inverse, and up to two optional turnover notch positions.
#[derive(Clone, Copy, Debug)]
pub struct Wiring {
    /// Array of positions that correspond to the letter of the alphabet at the same index
    pub wiring: [u8; 26],
    /// Reverse wiring, for signals travelling back through the rotor
    pub reverse_wiring: [u8; 26],
    /// Optional turnover position
    pub notch_1: Option<u8>,
    /// Optional turnover position
    pub notch_2: Option<u8>,
}

impl Wiring {
    /// The two arrays are mutually inverse permutations of the positions
    /// `0..26`, and each notch, if present, is a position.
    pub open spec fn wf(self) -> bool {
        &&& forall|i: int| 0 <= i < 26 ==> self.wiring@[i] < 26
        &&& forall|i: int| 0 <= i < 26 ==> self.reverse_wiring@[i] < 26
        &&& forall|i: int| 0 <= i < 26 ==> self.reverse_wiring@[#[trigger] self.wiring@[i] as int]
            == i
        &&& forall|i: int| 0 <= i < 26 ==> self.wiring@[#[trigger] self.reverse_wiring@[i] as int]
            == i
        &&& (self.notch_1 matches Some(x) ==> x < 26)
        &&& (self.notch_2 matches Some(x) ==> x < 26)
    }
}

/// Every entry of the 26-letter template is an ASCII letter.
pub open spec fn entries_ok(t: Seq<char>) -> bool {
    forall|i: int| 0 <= i < 26 ==> is_letter(#[trigger] t[i])
}

/// Some template entry stands for alphabet position `v`.
pub open spec fn has_source(t: Seq<char>, v: int) -> bool {
    exists|j: int| 0 <= j < 26 && is_letter(#[trigger] t[j]) && letter_index(t[j]) == v
}

/// Every alphabet position has a source in the template.
pub open spec fn covers_alphabet(t: Seq<char>) -> bool {
    forall|v: int| 0 <= v < 26 ==> has_source(t, v)
}

/// A template builds a wiring exactly when its entries are letters that,
/// case folded, cover the whole alphabet (hence form a permutation of it).
pub open spec fn template_ok(t: Seq<char>) -> bool {
    entries_ok(t) && covers_alphabet(t)
}

/// An optional notch letter is acceptable when absent or an ASCII letter.
pub open spec fn notch_ok(n: Option<char>) -> bool {
    n matches Some(c) ==> is_letter(c)
}

/// The position an optional notch letter stands for.
pub open spec fn notch_index(n: Option<char>) -> Option<u8> {
    match n {
        Some(c) => Some(letter_index(c) as u8),
        None => None,
    }
}

/// The error reported for a malformed template: scanning indices upward,
/// a non-letter entry is an invalid character, and an alphabet position
/// with no source is an invalid number.
pub open spec fn first_template_error(t: Seq<char>, i: int) -> EnigmaError
    decreases 26 - i,
{
    if i < 0 || i >= 26 {
        EnigmaError::InvalidNumber(26)
    } else if !is_letter(t[i]) {
        EnigmaError::InvalidChar(t[i])
    } else if !has_source(t, i) {
        EnigmaError::InvalidNumber(i as u8)
    } else {
        first_template_error(t, i + 1)
    }
}

proof fn lemma_first_error_skip(t: Seq<char>, i: int)
    requires
        0 <= i <= 26,
        forall|j: int| 0 <= j < i ==> is_letter(#[trigger] t[j]) && has_source(t, j),
    ensures
        first_template_error(t, 0) == first_template_error(t, i),
    decreases i,
{
    if i > 0 {
        lemma_first_error_skip(t, i - 1);
    }
}

/// The image of the first `n` entries of `g`, as a set of positions.
spec fn image_upto(g: Seq<u8>, n: int) -> Set<int>
    decreases n,
{
    if n <= 0 {
        Set::empty()
    } else {
        image_upto(g, n - 1).insert(g[n - 1] as int)
    }
}

proof fn lemma_image_upto(g: Seq<u8>, n: int)
    requires
        g.len() == 26,
        0 <= n <= 26,
        forall|v1: int, v2: int|
            0 <= v1 < 26 && 0 <= v2 < 26 && #[trigger] g[v1] == #[trigger] g[v2] ==> v1 == v2,
    ensures
        image_upto(g, n).finite(),
        image_upto(g, n).len() == n,
        forall|x: int|
            #[trigger] image_upto(g, n).contains(x) <==> exists|j: int| 0 <= j < n && g[j] == x,
    decreases n,
{
    if n > 0 {
        lemma_image_upto(g, n - 1);
        let prev = image_upto(g, n - 1);
        let x = g[n - 1] as int;
        if prev.contains(x) {
            let j = choose|j: int| 0 <= j < n - 1 && g[j] == x;
            assert(g[j] == g[n - 1]);
            assert(false);
        }
        vstd::set::axiom_set_insert_len(prev, x);
        assert forall|y: int| #[trigger]
            image_upto(g, n).contains(y) implies exists|j: int| 0 <= j < n && g[j] == y by {
            if y == x {
                assert(g[n - 1] == y);
            } else {
                let j = choose|j: int| 0 <= j < n - 1 && g[j] == y;
                assert(g[j] == y);
            }
        }
        assert forall|y: int| (exists|j: int| 0 <= j < n && g[j] == y) implies #[trigger]
            image_upto(g, n).contains(y) by {
            let j = choose|j: int| 0 <= j < n && g[j] == y;
            if j < n - 1 {
                assert(prev.contains(y));
            }
        }
    }
}

/// A right inverse over the finite positions `0..26` is a left inverse too:
/// `f` maps positions to positions and undoes `g`, so `g` also undoes `f`.
proof fn lemma_left_inverse(f: Seq<u8>, g: Seq<u8>)
    requires
        f.len() == 26,
        g.len() == 26,
        forall|i: int| 0 <= i < 26 ==> f[i] < 26,
        forall|i: int| 0 <= i < 26 ==> g[i] < 26,
        forall|v: int| 0 <= v < 26 ==> f[#[trigger] g[v] as int] == v,
    ensures
        forall|i: int| 0 <= i < 26 ==> g[#[trigger] f[i] as int] == i,
{
    assert forall|v1: int, v2: int|
        0 <= v1 < 26 && 0 <= v2 < 26 && #[trigger] g[v1] == #[trigger] g[v2] implies v1 == v2 by {
        assert(f[g[v1] as int] == v1);
        assert(f[g[v2] as int] == v2);
    }
    lemma_image_upto(g, 26);
    lemma_int_range(0, 26);
    let img = image_upto(g, 26);
    let range = set_int_range(0, 26);
    assert forall|x: int| img.contains(x) implies range.contains(x) by {
        let j = choose|j: int| 0 <= j < 26 && g[j] == x;
        assert(g[j] < 26);
    }
    assert forall|i: int| 0 <= i < 26 implies g[#[trigger] f[i] as int] == i by {
        if !img.contains(i) {
            let smaller = range.remove(i);
            assert(img.subset_of(smaller));
            vstd::set::axiom_set_remove_len(range, i);
            lemma_len_subset(img, smaller);
            assert(false);
        }
        let v = choose|j: int| 0 <= j < 26 && g[j] == i;
        assert(f[g[v] as int] == v);
        assert(f[i] == v);
    }
}

impl Wiring {
    /// Builds a wiring from a 26-letter template, where the entry at index
    /// `i` names the letter that position `i` is wired to, plus up to two
    /// notch letters.  The reverse wiring is found by searching the template
    /// for each alphabet position, so it is the true functional inverse of
    /// the forward wiring whenever construction succeeds.
    #[verifier::loop_isolation(false)]
    pub fn new(template: [char; 26], notch_1: Option<char>, notch_2: Option<char>) -> (r:
        EnigmaResult<Wiring>)
        ensures
            !notch_ok(notch_1) ==> (notch_1 matches Some(c) && r == Err::<Wiring, _>(
                EnigmaError::InvalidChar(c),
            )),
            notch_ok(notch_1) && !notch_ok(notch_2) ==> (notch_2 matches Some(c) && r == Err::<
                Wiring,
                _,
            >(EnigmaError::InvalidChar(c))),
            notch_ok(notch_1) && notch_ok(notch_2) && !template_ok(template@) ==> r == Err::<
                Wiring,
                _,
            >(first_template_error(template@, 0)),
            notch_ok(notch_1) && notch_ok(notch_2) && template_ok(template@) ==> {
                &&& r matches Ok(w)
                &&& w.wf()
                &&& forall|i: int|
                    0 <= i < 26 ==> #[trigger] w.wiring@[i] == letter_index(template@[i])
                &&& forall|i: int|
                    0 <= i < 26 ==> is_letter(template@[#[trigger] w.reverse_wiring@[i] as int])
                        && letter_index(template@[w.reverse_wiring@[i] as int]) == i
                &&& w.notch_1 == notch_index(notch_1)
                &&& w.notch_2 == notch_index(notch_2)
            },
    {
        let notch_1_pos: Option<u8> = match notch_1 {
            Some(c) => match EnigmaChar::from_char(c) {
                Ok(e) => Some(e.internal),
                Err(err) => {
                    return Err(err);
                },
            },
            None => None,
        };
        let notch_2_pos: Option<u8> = match notch_2 {
            Some(c) => match EnigmaChar::from_char(c) {
                Ok(e) => Some(e.internal),
                Err(err) => {
                    return Err(err);
                },
            },
            None => None,
        };

        let mut wiring: [u8; 26] = [0; 26];
        let mut reverse_wiring: [u8; 26] = [0; 26];
        let mut i: usize = 0;
        while i < 26
            invariant
                i <= 26,
                forall|j: int| 0 <= j < i ==> is_letter(#[trigger] template@[j]),
                forall|j: int| 0 <= j < i ==> has_source(template@, j),
                forall|j: int|
                    0 <= j < i ==> #[trigger] wiring@[j] == letter_index(template@[j]),
                forall|j: int| 0 <= j < i ==> #[trigger] reverse_wiring@[j] < 26,
                forall|j: int|
                    0 <= j < i ==> is_letter(
                        template@[#[trigger] reverse_wiring@[j] as int],
                    ) && letter_index(template@[reverse_wiring@[j] as int]) == j,
            decreases 26 - i,
        {
            let entry = match EnigmaChar::from_char(template[i]) {
                Ok(e) => e,
                Err(err) => {
                    proof {
                        lemma_first_error_skip(template@, i as int);
                    }
                    return Err(err);
                },
            };
            wiring[i] = entry.internal;

            let mut j: usize = 0;
            let mut found: bool = false;
            while j < 26 && !found
                invariant
                    j <= 26,
                    i < 26,
                    !found ==> forall|k: int|
                        0 <= k < j ==> !(is_letter(#[trigger] template@[k]) && letter_index(
                            template@[k],
                        ) == i),
                    found ==> j < 26 && is_letter(template@[j as int]) && letter_index(
                        template@[j as int],
                    ) == i,
                decreases 26 - j + (if found {
                    0int
                } else {
                    1int
                }),
            {
                match EnigmaChar::from_char(template[j]) {
                    Ok(e) => {
                        if e.internal as usize == i {
                            found = true;
                        } else {
                            j += 1;
                        }
                    },
                    Err(_) => {
                        j += 1;
                    },
                }
            }
            if !found {
                proof {
                    assert(is_letter(template@[i as int]));
                    assert(!has_source(template@, i as int));
                    lemma_first_error_skip(template@, i as int);
                }
                return Err(EnigmaError::InvalidNumber(i as u8));
            }
            reverse_wiring[i] = j as u8;
            i += 1;
        }

        proof {
            assert forall|v: int| 0 <= v < 26 implies has_source(template@, v) by {
                assert(is_letter(template@[reverse_wiring@[v] as int]) && letter_index(
                    template@[reverse_wiring@[v] as int],
                ) == v);
            }
            assert forall|k: int| 0 <= k < 26 implies #[trigger] wiring@[k] < 26 by {
                assert(wiring@[k] == letter_index(template@[k]));
            }
            assert forall|v: int|
                0 <= v < 26 implies wiring@[#[trigger] reverse_wiring@[v] as int] == v by {
                assert(wiring@[reverse_wiring@[v] as int] == letter_index(
                    template@[reverse_wiring@[v] as int],
                ));
            }
            lemma_left_inverse(wiring@, reverse_wiring@);
        }

        Ok(
            Wiring {
                wiring,
                reverse_wiring,
                notch_1: notch_1_pos,
                notch_2: notch_2_pos,
            },
        )
    }
}

/// The reverse wiring undoes the forward wiring on every position: for all
/// well-formed wiring tables and all positions `i`, looking `i` up forward
/// and then backward returns `i`.
pub proof fn lemma_wiring_inverse(w: Wiring)
    requires
        w.wf(),
    ensures
        forall|i: int| 0 <= i < 26 ==> w.reverse_wiring@[#[trigger] w.wiring@[i] as int] == i,
{
}



/// The named historical wirings of the Enigma M3: rotors I-VIII and the
/// reflectors UKW-A, UKW-B and UKW-C.  Retrieval builds a fresh independent
/// wiring table, so no two machines ever share mutable state.
#[derive(Clone, Copy, Debug)]
#[allow(non_camel_case_types)]
pub enum StandardWiring {
    I,
    II,
    III,
    IV,
    V,
    VI,
    VII,
    VIII,
    UKW_A,
    UKW_B,
    UKW_C,
}

/// Builds a catalog wiring table from a template already known to be a
/// permutation of the alphabet; such a build cannot fail.
fn catalog_table(template: [char; 26], notch_1: Option<char>, notch_2: Option<char>) -> (w: Wiring)
    requires
        template_ok(template@),
        notch_ok(notch_1),
        notch_ok(notch_2),
    ensures
        w.wf(),
        forall|i: int| 0 <= i < 26 ==> #[trigger] w.wiring@[i] == letter_index(template@[i]),
        w.notch_1 == notch_index(notch_1),
        w.notch_2 == notch_index(notch_2),
{
    match Wiring::new(template, notch_1, notch_2) {
        Ok(w) => w,
        Err(_) => vstd::pervasive::unreached(),
    }
}

impl StandardWiring {
    /// The historical letter template of each named wiring, exactly as on
    /// the physical wheels.
    pub open spec fn spec_template(self) -> Seq<char> {
        match self {
            StandardWiring::I => seq![
                'E', 'K', 'M', 'F', 'L', 'G', 'D', 'Q', 'V', 'Z', 'N', 'T', 'O', 'W', 'Y', 'H',
                'X', 'U', 'S', 'P', 'A', 'I', 'B', 'R', 'C', 'J'
            ],
            StandardWiring::II => seq![
                'A', 'J', 'D', 'K', 'S', 'I', 'R', 'U', 'X', 'B', 'L', 'H', 'W', 'T', 'M', 'C',
                'Q', 'G', 'Z', 'N', 'P', 'Y', 'F', 'V', 'O', 'E'
            ],
            StandardWiring::III => seq![
                'B', 'D', 'F', 'H', 'J', 'L', 'C', 'P', 'R', 'T', 'X', 'V', 'Z', 'N', 'Y', 'E',
                'I', 'W', 'G', 'A', 'K', 'M', 'U', 'S', 'Q', 'O'
            ],
            StandardWiring::IV => seq![
                'E', 'S', 'O', 'V', 'P', 'Z', 'J', 'A', 'Y', 'Q', 'U', 'I', 'R', 'H', 'X', 'L',
                'N', 'F', 'T', 'G', 'K', 'D', 'C', 'M', 'W', 'B'
            ],
            StandardWiring::V => seq![
                'V', 'Z', 'B', 'R', 'G', 'I', 'T', 'Y', 'U', 'P', 'S', 'D', 'N', 'H', 'L', 'X',
                'A', 'W', 'M', 'J', 'Q', 'O', 'F', 'E', 'C', 'K'
            ],
            StandardWiring::VI => seq![
                'J', 'P', 'G', 'V', 'O', 'U', 'M', 'F', 'Y', 'Q', 'B', 'E', 'N', 'H', 'Z', 'R',
                'D', 'K', 'A', 'S', 'X', 'L', 'I', 'C', 'T', 'W'
            ],
            StandardWiring::VII => seq![
                'N', 'Z', 'J', 'H', 'G', 'R', 'C', 'X', 'M', 'Y', 'S', 'W', 'B', 'O', 'U', 'F',
                'A', 'I', 'V', 'L', 'P', 'E', 'K', 'Q', 'D', 'T'
            ],
            StandardWiring::VIII => seq![
                'F', 'K', 'Q', 'H', 'T', 'L', 'X', 'O', 'C', 'B', 'J', 'S', 'P', 'D', 'Z', 'R',
                'A', 'M', 'E', 'W', 'N', 'I', 'U', 'Y', 'G', 'V'
            ],
            StandardWiring::UKW_A => seq![
                'E', 'J', 'M', 'Z', 'A', 'L', 'Y', 'X', 'V', 'B', 'W', 'F', 'C', 'R', 'Q', 'U',
                'O', 'N', 'T', 'S', 'P', 'I', 'K', 'H', 'G', 'D'
            ],
            StandardWiring::UKW_B => seq![
                'Y', 'R', 'U', 'H', 'Q', 'S', 'L', 'D', 'P', 'X', 'N', 'G', 'O', 'K', 'M', 'I',
                'E', 'B', 'F', 'Z', 'C', 'W', 'V', 'J', 'A', 'T'
            ],
            StandardWiring::UKW_C => seq![
                'F', 'V', 'P', 'J', 'I', 'A', 'O', 'Y', 'E', 'D', 'R', 'Z', 'X', 'W', 'G', 'C',
                'T', 'K', 'U', 'Q', 'S', 'B', 'N', 'M', 'H', 'L'
            ],
        }
    }

    /// The turnover notch positions of each named wiring.
    pub open spec fn spec_notches(self) -> (Option<u8>, Option<u8>) {
        match self {
            StandardWiring::I => (Some(16u8), None),
            StandardWiring::II => (Some(4u8), None),
            StandardWiring::III => (Some(21u8), None),
            StandardWiring::IV => (Some(9u8), None),
            StandardWiring::V => (Some(25u8), None),
            StandardWiring::VI => (Some(25u8), Some(12u8)),
            StandardWiring::VII => (Some(25u8), Some(12u8)),
            StandardWiring::VIII => (Some(25u8), Some(12u8)),
            StandardWiring::UKW_A => (None, None),
            StandardWiring::UKW_B => (None, None),
            StandardWiring::UKW_C => (None, None),
        }
    }

    /// The forward permutation of each named wiring, as alphabet positions.
    pub open spec fn spec_forward(self) -> Seq<u8> {
        Seq::new(26, |i: int| letter_index(self.spec_template()[i]) as u8)
    }

    /// Retrieves an independent copy of this standard wiring table.
    pub fn wiring(self) -> (w: Wiring)
        ensures
            w.wf(),
            w.wiring@ == self.spec_forward(),
            (w.notch_1, w.notch_2) == self.spec_notches(),
    {
        let w = match self {
            StandardWiring::I => {
                let template: [char; 26] = [
                    'E', 'K', 'M', 'F', 'L', 'G', 'D', 'Q', 'V', 'Z', 'N', 'T', 'O', 'W', 'Y',
                    'H', 'X', 'U', 'S', 'P', 'A', 'I', 'B', 'R', 'C', 'J',
                ];
                proof {
                    assert(template@ =~= self.spec_template());
                    assert(entries_ok(template@));
                    assert forall|v: int| 0 <= v < 26 implies has_source(template@, v) by {
                        assert(template@[0] == 'E');
                    }
                }
                catalog_table(template, Some('Q'), None)
            },
            StandardWiring::II => {
                let template: [char; 26] = [
                    'A', 'J', 'D', 'K', 'S', 'I', 'R', 'U', 'X', 'B', 'L', 'H', 'W', 'T', 'M',
                    'C', 'Q', 'G', 'Z', 'N', 'P', 'Y', 'F', 'V', 'O', 'E',
                ];
                proof {
                    assert(template@ =~= self.spec_template());
                    assert(entries_ok(template@));
                    assert forall|v: int| 0 <= v < 26 implies has_source(template@, v) by {
                        assert(template@[0] == 'A');
                    }
                }
                catalog_table(template, Some('E'), None)
            },
            StandardWiring::III => {
                let template: [char; 26] = [
                    'B', 'D', 'F', 'H', 'J', 'L', 'C', 'P', 'R', 'T', 'X', 'V', 'Z', 'N', 'Y',
                    'E', 'I', 'W', 'G', 'A', 'K', 'M', 'U', 'S', 'Q', 'O',
                ];
                proof {
                    assert(template@ =~= self.spec_template());
                    assert(entries_ok(template@));
                    assert forall|v: int| 0 <= v < 26 implies has_source(template@, v) by {
                        assert(template@[0] == 'B');
                    }
                }
                catalog_table(template, Some('V'), None)
            },
            StandardWiring::IV => {
                let template: [char; 26] = [
                    'E', 'S', 'O', 'V', 'P', 'Z', 'J', 'A', 'Y', 'Q', 'U', 'I', 'R', 'H', 'X',
                    'L', 'N', 'F', 'T', 'G', 'K', 'D', 'C', 'M', 'W', 'B',
                ];
                proof {
                    assert(template@ =~= self.spec_template());
                    assert(entries_ok(template@));
                    assert forall|v: int| 0 <= v < 26 implies has_source(template@, v) by {
                        assert(template@[0] == 'E');
                    }
                }
                catalog_table(template, Some('J'), None)
            },
            StandardWiring::V => {
                let template: [char; 26] = [
                    'V', 'Z', 'B', 'R', 'G', 'I', 'T', 'Y', 'U', 'P', 'S', 'D', 'N', 'H', 'L',
                    'X', 'A', 'W', 'M', 'J', 'Q', 'O', 'F', 'E', 'C', 'K',
                ];
                proof {
                    assert(template@ =~= self.spec_template());
                    assert(entries_ok(template@));
                    assert forall|v: int| 0 <= v < 26 implies has_source(template@, v) by {
                        assert(template@[0] == 'V');
                    }
                }
                catalog_table(template, Some('Z'), None)
            },
            StandardWiring::VI => {
                let template: [char; 26] = [
                    'J', 'P', 'G', 'V', 'O', 'U', 'M', 'F', 'Y', 'Q', 'B', 'E', 'N', 'H', 'Z',
                    'R', 'D', 'K', 'A', 'S', 'X', 'L', 'I', 'C', 'T', 'W',
                ];
                proof {
                    assert(template@ =~= self.spec_template());
                    assert(entries_ok(template@));
                    assert forall|v: int| 0 <= v < 26 implies has_source(template@, v) by {
                        assert(template@[0] == 'J');
                    }
                }
                catalog_table(template, Some('Z'), Some('M'))
            },
            StandardWiring::VII => {
                let template: [char; 26] = [
                    'N', 'Z', 'J', 'H', 'G', 'R', 'C', 'X', 'M', 'Y', 'S', 'W', 'B', 'O', 'U',
                    'F', 'A', 'I', 'V', 'L', 'P', 'E', 'K', 'Q', 'D', 'T',
                ];
                proof {
                    assert(template@ =~= self.spec_template());
                    assert(entries_ok(template@));
                    assert forall|v: int| 0 <= v < 26 implies has_source(template@, v) by {
                        assert(template@[0] == 'N');
                    }
                }
                catalog_table(template, Some('Z'), Some('M'))
            },
            StandardWiring::VIII => {
                let template: [char; 26] = [
                    'F', 'K', 'Q', 'H', 'T', 'L', 'X', 'O', 'C', 'B', 'J', 'S', 'P', 'D', 'Z',
                    'R', 'A', 'M', 'E', 'W', 'N', 'I', 'U', 'Y', 'G', 'V',
                ];
                proof {
                    assert(template@ =~= self.spec_template());
                    assert(entries_ok(template@));
                    assert forall|v: int| 0 <= v < 26 implies has_source(template@, v) by {
                        assert(template@[0] == 'F');
                    }
                }
                catalog_table(template, Some('Z'), Some('M'))
            },
            StandardWiring::UKW_A => {
                let template: [char; 26] = [
                    'E', 'J', 'M', 'Z', 'A', 'L', 'Y', 'X', 'V', 'B', 'W', 'F', 'C', 'R', 'Q',
                    'U', 'O', 'N', 'T', 'S', 'P', 'I', 'K', 'H', 'G', 'D',
                ];
                proof {
                    assert(template@ =~= self.spec_template());
                    assert(entries_ok(template@));
                    assert forall|v: int| 0 <= v < 26 implies has_source(template@, v) by {
                        assert(template@[0] == 'E');
                    }
                }
                catalog_table(template, None, None)
            },
            StandardWiring::UKW_B => {
                let template: [char; 26] = [
                    'Y', 'R', 'U', 'H', 'Q', 'S', 'L', 'D', 'P', 'X', 'N', 'G', 'O', 'K', 'M',
                    'I', 'E', 'B', 'F', 'Z', 'C', 'W', 'V', 'J', 'A', 'T',
                ];
                proof {
                    assert(template@ =~= self.spec_template());
                    assert(entries_ok(template@));
                    assert forall|v: int| 0 <= v < 26 implies has_source(template@, v) by {
                        assert(template@[0] == 'Y');
                    }
                }
                catalog_table(template, None, None)
            },
            StandardWiring::UKW_C => {
                let template: [char; 26] = [
                    'F', 'V', 'P', 'J', 'I', 'A', 'O', 'Y', 'E', 'D', 'R', 'Z', 'X', 'W', 'G',
                    'C', 'T', 'K', 'U', 'Q', 'S', 'B', 'N', 'M', 'H', 'L',
                ];
                proof {
                    assert(template@ =~= self.spec_template());
                    assert(entries_ok(template@));
                    assert forall|v: int| 0 <= v < 26 implies has_source(template@, v) by {
                        assert(template@[0] == 'F');
                    }
                }
                catalog_table(template, None, None)
            },
        };
        proof {
            assert(w.wiring@ =~= self.spec_forward());
        }
        w
    }
}

} // verus!

verus! {

/// The three standard reflectors send every signal straight back where it
/// came from: their forward tables are involutions.
pub proof fn lemma_reflector_involution(w: StandardWiring)
    requires
        w matches StandardWiring::UKW_A || w matches StandardWiring::UKW_B || w
            matches StandardWiring::UKW_C,
    ensures
        crate::spec_involution(w.spec_forward()),
{
    let t = w.spec_forward();
    assert forall|i: int| 0 <= i < 26 implies t[#[trigger] t[i] as int] == i by {
        assert(t[i] == letter_index(w.spec_template()[i]) as u8);
    }
}

} // verus!
