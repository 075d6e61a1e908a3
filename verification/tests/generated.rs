use toml_edit::Document;

struct Dice(u64);

impl Dice {
    fn roll(&mut self, sides: usize) -> usize {
        self.0 = self.0.wrapping_mul(6364136223846793005).wrapping_add(1442695040888963407);
        ((self.0 >> 33) as usize) % sides
    }

    fn pick<'a>(&mut self, choices: &[&'a str]) -> &'a str {
        choices[self.roll(choices.len())]
    }
}

const VALUES: [&str; 16] = [
    "1",
    "0x1F",
    "\"a\\tb\"",
    "'lit'",
    "true",
    "1.5e3",
    "1979-05-27T07:32:00Z",
    "[1, 2, 3]",
    "[ 'a',\n 'b', # c\n]",
    "{ a = 1, b = [true] }",
    "{}",
    "\"\"\"\nmulti\nline\"\"\"",
    "'''\nraw\n'''",
    "[[1], ['x']]",
    "inf",
    "0",
];

const TRIVIA: [&str; 6] = ["", "\n", "# note\n", "  \n", "\t# x\n\n", "\r\n"];

const ENDS: [&str; 4] = ["\n", " # tail\n", "\r\n", "   \n"];

fn document(dice: &mut Dice) -> String {
    let mut text = String::new();
    let mut key = 0;
    let mut table = 0;
    for _ in 0..dice.roll(12) {
        text.push_str(dice.pick(&TRIVIA));
        if dice.roll(4) == 0 {
            table += 1;
            match dice.roll(3) {
                0 => text.push_str(&format!("[t{}]", table)),
                1 => text.push_str(&format!("[t{}.'sub'.x]", table)),
                _ => text.push_str("[[list]]"),
            }
        } else {
            key += 1;
            let space = dice.pick(&["", " ", "\t"]);
            text.push_str(&format!("k{}{}={}{}", key, space, space, dice.pick(&VALUES)));
        }
        text.push_str(dice.pick(&ENDS));
    }
    text.push_str(dice.pick(&TRIVIA));
    text
}

#[test]
fn generated_documents_come_back() {
    let mut dice = Dice(7);
    for _ in 0..2000 {
        let text = document(&mut dice);
        let doc = match Document::parse_text(&text) {
            Ok(doc) => doc,
            Err(e) => panic!("{:?} is refused: {:?}", text, e),
        };
        assert!(doc.is_well_formed());
        assert_eq!(String::from_utf8(doc.to_bytes_in_original_order()).unwrap(), text);
        if doc.is_in_canonical_order() {
            assert_eq!(String::from_utf8(doc.to_bytes()).unwrap(), text);
        }
    }
}

#[test]
fn arbitrary_bytes_are_read_or_refused() {
    let mut dice = Dice(11);
    let alphabet = b"ab1 =[]{}.,\"'#\n\\-+_:Tte\r\t\x00\xc3\xa9";
    let mut accepted = 0;
    for _ in 0..20000 {
        let len = dice.roll(24);
        let text: Vec<u8> = (0..len).map(|_| alphabet[dice.roll(alphabet.len())]).collect();
        if let Ok(doc) = Document::parse(&text) {
            accepted += 1;
            assert!(doc.is_well_formed());
            let again = Document::parse(&doc.to_bytes_in_original_order()).unwrap();
            assert_eq!(again.to_bytes_in_original_order(), doc.to_bytes_in_original_order());
            assert_eq!(again.to_bytes(), doc.to_bytes());
            let canonical = Document::parse(&doc.to_bytes()).unwrap();
            assert_eq!(canonical.to_bytes(), doc.to_bytes());
            assert!(canonical.is_in_canonical_order());
        }
    }
    assert!(accepted > 100);
}
