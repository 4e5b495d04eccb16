use puzzlebox::armstrong::is_armstrong_number;
use puzzlebox::backpack;
use puzzlebox::bytecode;
use puzzlebox::calculator::{evaluate, CalculatorInput};
use puzzlebox::gigasecond::{after, PlainMoment};
use puzzlebox::magazine::can_construct_note;
use puzzlebox::player::Player;
use puzzlebox::resistor::{color_to_value, colors, value_to_color_string, ResistorColor};

#[test]
fn test_armstrong_numbers() {
    assert!(is_armstrong_number(0));
    assert!(is_armstrong_number(5));
    assert!(is_armstrong_number(153));
    assert!(is_armstrong_number(9474));
    assert!(!is_armstrong_number(10));
    assert!(!is_armstrong_number(154));
    assert!(is_armstrong_number(9_926_315));
}

#[test]
fn test_magazine_cutout() {
    let magazine = ["two", "times", "three", "is", "not", "four"];
    let note = ["two", "times", "two", "is", "four"];
    assert!(!can_construct_note(&magazine, &note));

    let magazine = ["astronomer", "amy", "the", "girl", "with", "the", "baseball", "bat"];
    let note = ["Amy", "the", "girl", "with", "the", "bat"];
    assert!(!can_construct_note(&magazine, &note));

    let magazine = ["a", "b", "c", "b"];
    let note = ["b", "b", "a"];
    assert!(can_construct_note(&magazine, &note));
    let empty: [&str; 0] = [];
    assert!(can_construct_note(&empty, &empty));
}

#[test]
fn test_player_revive() {
    let dead = Player { health: 0, mana: None, level: 12 };
    let revived = dead.revive().unwrap();
    assert_eq!(revived.health, 100);
    assert_eq!(revived.mana, Some(100));
    assert_eq!(revived.level, 12);

    let novice = Player { health: 0, mana: None, level: 3 };
    let revived = novice.revive().unwrap();
    assert_eq!(revived.mana, None);

    let alive = Player { health: 5, mana: None, level: 3 };
    assert!(alive.revive().is_none());
}

#[test]
fn test_player_cast_spell() {
    let mut wizard = Player { health: 100, mana: Some(30), level: 10 };
    assert_eq!(wizard.cast_spell(10), 20);
    assert_eq!(wizard.mana, Some(20));

    let mut broke = Player { health: 100, mana: Some(5), level: 10 };
    assert_eq!(broke.cast_spell(7), 0);
    assert_eq!(broke.mana, Some(5));

    let mut fighter = Player { health: 10, mana: None, level: 1 };
    assert_eq!(fighter.cast_spell(3), 0);
    assert_eq!(fighter.health, 7);
    assert_eq!(fighter.cast_spell(100), 0);
    assert_eq!(fighter.health, 0);
}

#[test]
fn test_calculator() {
    let inputs = [
        CalculatorInput::Value(4),
        CalculatorInput::Value(8),
        CalculatorInput::Add,
        CalculatorInput::Value(7),
        CalculatorInput::Value(5),
        CalculatorInput::Subtract,
        CalculatorInput::Divide,
    ];
    assert_eq!(evaluate(&inputs), Some(6));

    let underflow = [CalculatorInput::Value(2), CalculatorInput::Add];
    assert_eq!(evaluate(&underflow), None);

    let leftover = [CalculatorInput::Value(2), CalculatorInput::Value(3)];
    assert_eq!(evaluate(&leftover), None);

    let empty: [CalculatorInput; 0] = [];
    assert_eq!(evaluate(&empty), None);

    let truncating = [
        CalculatorInput::Value(-7),
        CalculatorInput::Value(2),
        CalculatorInput::Divide,
    ];
    assert_eq!(evaluate(&truncating), Some(-3));
}

#[test]
fn test_resistor_colors() {
    assert_eq!(color_to_value(ResistorColor::Black), 0);
    assert_eq!(color_to_value(ResistorColor::White), 9);
    assert_eq!(value_to_color_string(3), "Orange");
    assert_eq!(value_to_color_string(10), "value out of range");
    let all = colors();
    assert_eq!(all.len(), 10);
    assert_eq!(all[0], ResistorColor::Black);
    assert_eq!(all[9], ResistorColor::White);
}

#[test]
fn test_first_characters() {
    assert_eq!(bytecode::constant_str(), 'H');
    assert_eq!(bytecode::value_str(), 'H');
    assert_eq!(bytecode::variable_str(), 'H');
    assert_eq!(bytecode::external_string("zebra"), 'z');
}

#[test]
fn test_gigasecond_after() {
    let start = PlainMoment { year: 2011, month: 4, day: 25, hour: 0, minute: 0, second: 0 };
    let end = after(&start).unwrap();
    assert_eq!(
        end,
        PlainMoment { year: 2043, month: 1, day: 1, hour: 1, minute: 46, second: 40 }
    );
}

#[test]
fn test_gigasecond_out_of_range() {
    // a billion seconds past late 9999 leaves the representable years
    let start = PlainMoment { year: 9999, month: 1, day: 1, hour: 0, minute: 0, second: 0 };
    assert!(after(&start).is_none());
}

#[test]
fn test_backpack_priorities() {
    assert_eq!(backpack::item_priority('a'), Some(1));
    assert_eq!(backpack::item_priority('z'), Some(26));
    assert_eq!(backpack::item_priority('A'), Some(27));
    assert_eq!(backpack::item_priority('Z'), Some(52));
    assert_eq!(backpack::item_priority('!'), None);
    let table = backpack::build_hash_map();
    assert_eq!(table.len(), 52);
    assert_eq!(table[0], ('a', 1));
    assert_eq!(table[51], ('Z', 52));
}

#[test]
fn test_backpack_compartments() {
    let (front, back) = backpack::open_backpacks("vJrwpWtwJgWrhcsFMMfFFhFp").unwrap();
    assert_eq!(front, "vJrwpWtwJgWr");
    assert_eq!(back, "hcsFMMfFFhFp");
    assert!(backpack::open_backpacks("abc").is_none());

    let catalogue = backpack::catalogize_backpack(front);
    assert_eq!(backpack::first_in_catalogue(catalogue, back), Some('p'));
}

#[test]
fn test_backpack_group_badge() {
    let group = [
        "vJrwpWtwJgWrhcsFMMfFFhFp",
        "jqHRNqRjqzjGDLGLrsFMfFZSrLrFZsSL",
        "PmmdzqPrVvPwwTWBwg",
    ];
    assert_eq!(backpack::inspect_elf_group(&group), Some('r'));
    let empty: [&str; 0] = [];
    assert_eq!(backpack::inspect_elf_group(&empty), None);
}

#[test]
fn test_backpack_priority_sum() {
    let content = "vJrwpWtwJgWrhcsFMMfFFhFp\njqHRNqRjqzjGDLGLrsFMfFZSrLrFZsSL\nPmmdzqPrVvPwwTWBwg\nwMqvLMZHhHMvwLHjbvcjnnSBnvTQFn\nttgJtRGJQctTZtZT\nCrZsJsPPZsGzwwsLwLmpwMDw";
    assert_eq!(puzzlebox::backpack::sum_duplicate_priorities(content), Some(157));
    assert!(puzzlebox::backpack::sum_duplicate_priorities("abc").is_none());
}
