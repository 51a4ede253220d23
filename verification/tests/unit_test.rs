use enigma::rotor::Rotor;
use enigma::wiring::StandardWiring;
use enigma::{EnigmaChar, Steckerbrett};

#[test]
fn test_stecker() {
    assert!(
        Steckerbrett::from_str("AE IO ML").unwrap().0
            == Steckerbrett::from_pairs(&vec![('A', 'E'), ('I', 'O'), ('M', 'L')])
                .unwrap()
                .0,
    );
}

fn assert_rotor(rotor: &Rotor, input: char, expected: char, reversed: bool) {
    match EnigmaChar::from_char(input) {
        Ok(mut a) => {
            rotor.get_for(&mut a, reversed).unwrap();
            assert_eq!(a.to_char(), expected);
        }
        Err(_) => {
            assert_eq!(input, expected);
        }
    }
}

#[test]
fn rotor_test_wiring() {
    let mut rotor1 = Rotor::new(StandardWiring::I.wiring());

    rotor1
        .set_position(&EnigmaChar::from_char('A').unwrap())
        .unwrap();
    assert_rotor(&rotor1, 'A', 'E', false);
    assert_rotor(&rotor1, 'z', 'j', false);
    assert_rotor(&rotor1, 'E', 'A', true);
    assert_rotor(&rotor1, 'j', 'z', true);

    assert_rotor(&rotor1, '#', '#', false);

    rotor1
        .set_position(&EnigmaChar::from_char('B').unwrap())
        .unwrap();
    assert_rotor(&rotor1, 'A', 'J', false);
    assert_rotor(&rotor1, 'z', 'd', false);
    assert_rotor(&rotor1, 'J', 'A', true);
    assert_rotor(&rotor1, 'd', 'z', true);
}

#[test]
fn wiring_test_wiring() {
    let wiring = StandardWiring::I.wiring();
    let strw: String = wiring
        .wiring
        .iter()
        .map(|i| {
            EnigmaChar {
                internal: *i,
                uppercase: true,
            }
            .to_char()
        })
        .collect();
    let strrw: String = wiring
        .reverse_wiring
        .iter()
        .map(|i| {
            EnigmaChar {
                internal: *i,
                uppercase: true,
            }
            .to_char()
        })
        .collect();

    println!("Normal wiring:   {}\nReversed wiring: {}", strw, strrw);

    assert_eq!("EKMFLGDQVZNTOWYHXUSPAIBRCJ", strw);
    assert_eq!("UWYGADFPVZBECKMTHXSLRINQOJ", strrw);
}
