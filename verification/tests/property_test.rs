use enigma::rotor::Rotor;
use enigma::wiring::{StandardWiring, Wiring};
use enigma::{Enigma, EnigmaChar, EnigmaError, Steckerbrett};

fn standard_machine(stecker: Steckerbrett) -> Enigma {
    Enigma::standard(
        StandardWiring::UKW_B,
        StandardWiring::I,
        StandardWiring::II,
        StandardWiring::III,
        stecker,
    )
}

#[test]
fn involution_round_trip() {
    // Encoding the encoded text with the machine reset to the same starting
    // positions returns the original text, for every starting position and
    // with a plugboard in use.
    let stecker = || Steckerbrett::from_pairs(&vec![('A', 'Q'), ('F', 'R'), ('S', 'M')]).unwrap();
    for start in ["AAA", "QEV", "ZZZ", "JXD"] {
        let mut machine = standard_machine(stecker());
        machine.set_position_str(start).unwrap();
        let enc = machine.get_for_str("Attack At Dawn", true, true).unwrap();
        let mut machine = standard_machine(stecker());
        machine.set_position_str(start).unwrap();
        let dec = machine.get_for_str(&enc, true, true).unwrap();
        assert_eq!(dec, "Attack At Dawn");
    }
}

#[test]
fn plugboard_symmetry() {
    // Configured pairs swap both ways; unconfigured positions are untouched.
    let stecker = Steckerbrett::from_pairs(&vec![('A', 'B'), ('X', 'Q')]).unwrap();
    let mut c = EnigmaChar::from_char('A').unwrap();
    stecker.get(&mut c);
    assert_eq!(c.to_char(), 'B');
    let mut c = EnigmaChar::from_char('B').unwrap();
    stecker.get(&mut c);
    assert_eq!(c.to_char(), 'A');
    let mut c = EnigmaChar::from_char('X').unwrap();
    stecker.get(&mut c);
    assert_eq!(c.to_char(), 'Q');
    let mut c = EnigmaChar::from_char('Q').unwrap();
    stecker.get(&mut c);
    assert_eq!(c.to_char(), 'X');
    let mut c = EnigmaChar::from_char('C').unwrap();
    stecker.get(&mut c);
    assert_eq!(c.to_char(), 'C');
}

#[test]
fn wiring_inverse() {
    // For every standard wiring table, the backward table undoes the
    // forward table on all 26 positions, and the other way round.
    let all = [
        StandardWiring::I,
        StandardWiring::II,
        StandardWiring::III,
        StandardWiring::IV,
        StandardWiring::V,
        StandardWiring::VI,
        StandardWiring::VII,
        StandardWiring::VIII,
        StandardWiring::UKW_A,
        StandardWiring::UKW_B,
        StandardWiring::UKW_C,
    ];
    for w in all {
        let w = w.wiring();
        for i in 0..26usize {
            assert_eq!(w.reverse_wiring[w.wiring[i] as usize] as usize, i);
            assert_eq!(w.wiring[w.reverse_wiring[i] as usize] as usize, i);
        }
    }
}

#[test]
fn wiring_custom_template() {
    // A custom template builds the permutation it names, with its notches.
    let template = [
        'B', 'A', 'D', 'C', 'F', 'E', 'H', 'G', 'J', 'I', 'L', 'K', 'N', 'M', 'P', 'O', 'R', 'Q',
        'T', 'S', 'V', 'U', 'X', 'W', 'Z', 'Y',
    ];
    let w = Wiring::new(template, Some('q'), Some('Z')).unwrap();
    assert_eq!(w.wiring[0], 1);
    assert_eq!(w.wiring[1], 0);
    assert_eq!(w.reverse_wiring[25], 24);
    assert_eq!(w.notch_1, Some(16));
    assert_eq!(w.notch_2, Some(25));
    for i in 0..26usize {
        assert_eq!(w.reverse_wiring[w.wiring[i] as usize] as usize, i);
    }
}

#[test]
fn rotor_stepping_period() {
    // 26 consecutive steps bring a rotor back to its starting position.
    let mut rotor = Rotor::new(StandardWiring::III.wiring());
    rotor
        .set_position(&EnigmaChar::from_char('G').unwrap())
        .unwrap();
    let start = rotor.get_position().to_char();
    for _ in 0..26 {
        rotor.rotate();
    }
    assert_eq!(rotor.get_position().to_char(), start);
}

#[test]
fn known_vector() {
    // The classic vector: rotors I/II/III, reflector UKW-B, plugboard
    // A-Q F-R S-M, starting positions AAA.
    let stecker = Steckerbrett::from_pairs(&vec![('A', 'Q'), ('F', 'R'), ('S', 'M')]).unwrap();
    let mut machine = standard_machine(stecker);
    let enc = machine.get_for_str("test", false, true).unwrap();
    assert_eq!("olkr", enc);

    // The same text through an empty plugboard.
    let mut machine = standard_machine(Steckerbrett::new());
    let enc = machine.get_for_str("test", false, true).unwrap();
    assert_eq!("olpf", enc);
}

#[test]
fn unsupported_character_keeps_state() {
    // Encoding a non-letter fails and moves no rotor.
    let mut machine = standard_machine(Steckerbrett::new());
    machine.set_position_str("QEV").unwrap();
    assert!(matches!(
        machine.get_for_char('#'),
        Err(EnigmaError::UnsupportedCharacter('#'))
    ));
    assert_eq!(machine.get_position_str(), "QEV");
    assert!(matches!(
        machine.get_for_char(' '),
        Err(EnigmaError::UnsupportedCharacter(' '))
    ));
    assert_eq!(machine.get_position_str(), "QEV");
}

#[test]
fn case_preservation() {
    // With case preservation on, the output case pattern is the input's.
    let mut machine = standard_machine(Steckerbrett::new());
    let enc = machine.get_for_str("AbCdEfGh", true, true).unwrap();
    assert_eq!(enc.len(), 8);
    for (i, c) in enc.chars().enumerate() {
        assert_eq!(c.is_ascii_uppercase(), i % 2 == 0);
        assert!(c.is_ascii_alphabetic());
    }
    // Without it the output is uppercase throughout.
    let mut machine = standard_machine(Steckerbrett::new());
    let enc = machine.get_for_str("AbCdEfGh", true, false).unwrap();
    assert!(enc.chars().all(|c| c.is_ascii_uppercase()));
}

#[test]
fn double_step_anomaly() {
    // With the middle rotor one short of its notch, the next two characters
    // show the double step: the middle rotor moves on consecutive steps and
    // carries the left rotor.
    let mut machine = standard_machine(Steckerbrett::new());
    machine.set_position_str("ADV").unwrap();
    machine.get_for_char('A').unwrap();
    assert_eq!(machine.get_position_str(), "AEW");
    machine.get_for_char('A').unwrap();
    assert_eq!(machine.get_position_str(), "BFX");
}

#[test]
fn position_errors() {
    let mut machine = standard_machine(Steckerbrett::new());
    assert!(matches!(
        machine.set_position_str("AB"),
        Err(EnigmaError::InvalidPosition(s)) if s == "AB"
    ));
    assert!(matches!(
        machine.set_position_str("ABCD"),
        Err(EnigmaError::InvalidPosition(s)) if s == "ABCD"
    ));
    assert!(matches!(
        machine.set_position_str("A2C"),
        Err(EnigmaError::InvalidChar('2'))
    ));
    assert!(matches!(
        machine.set_position(None, None, Some('!')),
        Err(EnigmaError::InvalidChar('!'))
    ));
    // An absent character leaves that rotor where it stands.
    machine.set_position_str("BCD").unwrap();
    machine.set_position(None, Some('Z'), None).unwrap();
    assert_eq!(machine.get_position_str(), "BZD");
    assert_eq!(machine.get_position(), ['B', 'Z', 'D']);
}

#[test]
fn stecker_errors() {
    assert!(matches!(
        Steckerbrett::from_str("AEI"),
        Err(EnigmaError::InvalidSteckerbrettString(s)) if s == "AEI"
    ));
    assert!(matches!(
        Steckerbrett::from_str("AE I"),
        Err(EnigmaError::InvalidSteckerbrettString(s)) if s == "AE I"
    ));
    assert!(matches!(
        Steckerbrett::from_str("A2"),
        Err(EnigmaError::InvalidChar('2'))
    ));
    assert!(matches!(
        Steckerbrett::from_pairs(&vec![('A', 'B'), ('C', '#')]),
        Err(EnigmaError::InvalidChar('#'))
    ));
    // Tokens split on any ASCII whitespace, and an empty string is an
    // empty plugboard.
    assert!(Steckerbrett::from_str("AE\tIO\nML").is_ok());
    assert!(Steckerbrett::from_str("").unwrap().0.is_empty());
}

#[test]
fn wiring_template_errors() {
    // A template with a repeated letter leaves some position without a
    // source: the first such position is reported.
    let mut template = [
        'E', 'K', 'M', 'F', 'L', 'G', 'D', 'Q', 'V', 'Z', 'N', 'T', 'O', 'W', 'Y', 'H', 'X', 'U',
        'S', 'P', 'A', 'I', 'B', 'R', 'C', 'J',
    ];
    template[20] = 'E';  // 'A' no longer appears
    assert!(matches!(
        Wiring::new(template, None, None),
        Err(EnigmaError::InvalidNumber(0))
    ));
    // A non-letter template entry is an invalid character, reported before
    // the position scan reaches it.
    let mut template2 = [
        'E', 'K', 'M', 'F', 'L', 'G', 'D', 'Q', 'V', 'Z', 'N', 'T', 'O', 'W', 'Y', 'H', 'X', 'U',
        'S', 'P', 'A', 'I', 'B', 'R', 'C', 'J',
    ];
    template2[0] = '9';
    assert!(matches!(
        Wiring::new(template2, None, None),
        Err(EnigmaError::InvalidChar('9'))
    ));
    // Bad notch letters are rejected before the template is read.
    let good = [
        'E', 'K', 'M', 'F', 'L', 'G', 'D', 'Q', 'V', 'Z', 'N', 'T', 'O', 'W', 'Y', 'H', 'X', 'U',
        'S', 'P', 'A', 'I', 'B', 'R', 'C', 'J',
    ];
    assert!(matches!(
        Wiring::new(good, Some('1'), None),
        Err(EnigmaError::InvalidChar('1'))
    ));
    assert!(matches!(
        Wiring::new(good, Some('Q'), Some('?')),
        Err(EnigmaError::InvalidChar('?'))
    ));
}

#[test]
fn char_conversion() {
    let c = EnigmaChar::from_char('A').unwrap();
    assert_eq!(c.internal, 0);
    assert!(c.uppercase);
    let c = EnigmaChar::from_char('z').unwrap();
    assert_eq!(c.internal, 25);
    assert!(!c.uppercase);
    assert_eq!(c.to_char(), 'z');
    assert!(matches!(
        EnigmaChar::from_char('@'),
        Err(EnigmaError::InvalidChar('@'))
    ));
    assert!(matches!(
        EnigmaChar::from_char('['),
        Err(EnigmaError::InvalidChar('['))
    ));
    // A non-ASCII character whose low byte looks like a letter is rejected.
    assert!(matches!(
        EnigmaChar::from_char('\u{141}'),
        Err(EnigmaError::InvalidChar('\u{141}'))
    ));
}

#[test]
fn duplicate_pair_overwrites() {
    // A repeated endpoint silently overwrites the earlier mapping.
    let stecker = Steckerbrett::from_pairs(&vec![('A', 'B'), ('A', 'C')]).unwrap();
    let mut c = EnigmaChar::from_char('A').unwrap();
    stecker.get(&mut c);
    assert_eq!(c.to_char(), 'C');
    let mut c = EnigmaChar::from_char('B').unwrap();
    stecker.get(&mut c);
    assert_eq!(c.to_char(), 'A');
}

#[test]
fn error_messages() {
    assert_eq!(
        EnigmaError::InvalidChar('#').message(),
        "Cannot index using invalid character: #"
    );
    assert_eq!(
        EnigmaError::InvalidNumber(7).message(),
        "Cannot index using invalid number: 7"
    );
    assert_eq!(
        EnigmaError::InvalidNumber(42).message(),
        "Cannot index using invalid number: 42"
    );
    assert_eq!(
        EnigmaError::InvalidNumber(255).message(),
        "Cannot index using invalid number: 255"
    );
    assert_eq!(
        EnigmaError::InvalidPosition(String::from("AB")).message(),
        "String 'AB' cannot be used to set position"
    );
    assert_eq!(
        EnigmaError::InvalidSteckerbrettString(String::from("AEI")).message(),
        "String 'AEI' is not representing valid stecker pairs!"
    );
    assert_eq!(
        EnigmaError::UnsupportedCharacter('!').message(),
        "Character '!' cannot be encoded"
    );
}

#[test]
fn custom_machine() {
    // A machine from custom wiring tables encodes and decodes as well.
    let reflector = StandardWiring::UKW_C.wiring();
    let l = StandardWiring::IV.wiring();
    let m = StandardWiring::V.wiring();
    let r = StandardWiring::VI.wiring();
    let mut machine = Enigma::new(
        reflector.clone(),
        l.clone(),
        m.clone(),
        r.clone(),
        Steckerbrett::new(),
    );
    machine.set_position_str("KPX").unwrap();
    let enc = machine.get_for_str("Verification", false, false).unwrap();
    let mut machine = Enigma::new(reflector, l, m, r, Steckerbrett::new());
    machine.set_position_str("KPX").unwrap();
    let dec = machine.get_for_str(&enc, false, false).unwrap();
    assert_eq!(dec, "VERIFICATION");
}

#[test]
fn empty_and_unsupported_text() {
    let mut machine = standard_machine(Steckerbrett::new());
    assert_eq!(machine.get_for_str("", true, true).unwrap(), "");
    assert_eq!(machine.get_position_str(), "AAA");
    // A text of only unsupported characters moves nothing and is kept or
    // dropped as asked.
    assert_eq!(machine.get_for_str("3, 2, 1!", true, true).unwrap(), "3, 2, 1!");
    assert_eq!(machine.get_for_str("3, 2, 1!", false, true).unwrap(), "");
    assert_eq!(machine.get_position_str(), "AAA");
}

#[test]
fn rotor_positions_wrap() {
    // Stepping past 'Z' wraps to 'A'.
    let mut machine = standard_machine(Steckerbrett::new());
    machine.set_position_str("AAZ").unwrap();
    machine.get_for_char('A').unwrap();
    assert_eq!(machine.get_position_str(), "AAA");
}
