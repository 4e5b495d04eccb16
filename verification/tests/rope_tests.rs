use puzzlebox::rope::{ChainSimulator, Direction, Instruction, ParseError, Position};

#[test]
fn test_abs_position() {
    assert_eq!(Position { x: 0, y: 0 }.abs(), 0);
    assert_eq!(Position { x: 1, y: 1 }.abs(), 1);
    assert_eq!(Position { x: 3, y: 1 }.abs(), 4);
    assert_eq!(Position { x: 1, y: 0 }.abs(), 1);
    assert_eq!(Position { x: -1, y: 1 }.abs(), 1);
    assert_eq!(Position { x: -2, y: 1 }.abs(), 3);
}

#[test]
fn test_get_instructions() {
    assert_eq!(
        Instruction::parse("D 4523").expect("Expect this to parse correctly"),
        Instruction::new(Direction::DOWN, 4523)
    );
}

#[test]
fn test_rope() {
    let mut sim = ChainSimulator::new(2).unwrap();
    sim.apply_instruction(Instruction::parse("L 2").unwrap());
    assert_eq!(sim.head_position().to_tuple(), (-2, 0));
    assert_eq!(sim.tail_position().to_tuple(), (-1, 0));
    sim.apply_instruction(Instruction::parse("U 1").unwrap());
    assert_eq!(sim.head_position().to_tuple(), (-2, 1));
    assert_eq!(sim.tail_position().to_tuple(), (-1, 0));
    sim.apply_instruction(Instruction::parse("U 1").unwrap());
    assert_eq!(sim.head_position().to_tuple(), (-2, 2));
    assert_eq!(sim.tail_position().to_tuple(), (-2, 1));
    sim.apply_instruction(Instruction::parse("R 4").unwrap());
    assert_eq!(sim.head_position().to_tuple(), (2, 2));
    assert_eq!(sim.tail_position().to_tuple(), (1, 2));

    let mut sim = ChainSimulator::new(10).unwrap();
    sim.apply_instruction(Instruction::parse("R 5").unwrap());
    sim.apply_instruction(Instruction::parse("U 8").unwrap());
    assert_eq!(sim.tail_position().to_tuple(), (0, 0));
    sim.apply_instruction(Instruction::parse("L 8").unwrap());
    assert_eq!(sim.tail_position().to_tuple(), (1, 3));
}

#[test]
fn test_scenario_short_chain() {
    // chain of two knots: 13 distinct tail positions, the start included
    let script = "R 4\nU 4\nL 3\nD 1\nR 4\nD 1\nL 5\nR 2";
    let instructions = puzzlebox::rope::parse_script(script).unwrap();
    assert_eq!(instructions.len(), 8);
    let count = puzzlebox::rope::run_simulation(&instructions, 2).unwrap();
    assert_eq!(count, 13);
}

#[test]
fn test_scenario_long_chain() {
    // chain of ten knots: 36 distinct tail positions, the start included
    let script = "R 5\nU 8\nL 8\nD 3\nR 17\nD 10\nL 25\nU 20";
    let instructions = puzzlebox::rope::parse_script(script).unwrap();
    assert_eq!(instructions.len(), 8);
    let count = puzzlebox::rope::run_simulation(&instructions, 10).unwrap();
    assert_eq!(count, 36);
}

#[test]
fn test_parse_failures() {
    assert_eq!(Instruction::parse("X 3"), Err(ParseError::InvalidDirection));
    assert_eq!(Instruction::parse("R"), Err(ParseError::MalformedLine));
    assert_eq!(Instruction::parse("R abc"), Err(ParseError::InvalidStepCount));
    assert_eq!(Instruction::parse(""), Err(ParseError::MalformedLine));
    assert_eq!(Instruction::parse("R 99999"), Err(ParseError::InvalidStepCount));
}

#[test]
fn test_parse_rejects_long_direction_token() {
    // the direction must be a single-character token
    assert_eq!(Instruction::parse("UD 3"), Err(ParseError::InvalidDirection));
    assert_eq!(Instruction::parse("UP 4"), Err(ParseError::InvalidDirection));
    assert_eq!(Instruction::parse("U 4"), Ok(Instruction::new(Direction::UP, 4)));
}

#[test]
fn test_parse_render_round_trip() {
    for line in ["R 4", "U 0", "D 65535", "L 17"] {
        let i = Instruction::parse(line).unwrap();
        assert_eq!(i.render(), line);
    }
}

#[test]
fn test_direction_characters() {
    assert_eq!(Direction::parse('U'), Some(Direction::UP));
    assert_eq!(Direction::parse('D'), Some(Direction::DOWN));
    assert_eq!(Direction::parse('L'), Some(Direction::LEFT));
    assert_eq!(Direction::parse('R'), Some(Direction::RIGHT));
    assert_eq!(Direction::parse('x'), None);
    assert_eq!(Direction::UP.as_char(), 'U');
}

#[test]
fn test_degenerate_chain() {
    // a single knot: the tail is the head, so every head position is visited
    let mut sim = ChainSimulator::new(1).unwrap();
    sim.apply_instruction(Instruction::parse("R 2").unwrap());
    sim.apply_instruction(Instruction::parse("L 2").unwrap());
    // start, (1,0), (2,0): moving back adds nothing new
    assert_eq!(sim.visited_count(), 3);
}

#[test]
fn test_zero_length_chain_is_rejected() {
    assert!(ChainSimulator::new(0).is_err());
}

#[test]
fn test_visited_count_monotonic() {
    let mut sim = ChainSimulator::new(3).unwrap();
    let mut last = sim.visited_count();
    for line in ["R 4", "U 2", "L 1", "D 7"] {
        sim.apply_instruction(Instruction::parse(line).unwrap());
        let now = sim.visited_count();
        assert!(now >= last);
        last = now;
    }
}

#[test]
fn test_parse_script_reports_first_failure() {
    let r = puzzlebox::rope::parse_script("R 4\nX 1\nR");
    assert_eq!(r, Err(ParseError::InvalidDirection));
}
