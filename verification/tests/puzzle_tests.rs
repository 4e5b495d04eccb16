use puzzlebox::cpu;
use puzzlebox::dirtree::{Directory, File};
use puzzlebox::forest;
use puzzlebox::grids::{and_1d, and_2d};
use puzzlebox::marker;
use puzzlebox::monkey::Operation;
use puzzlebox::ranges::Range;
use puzzlebox::rps;
use puzzlebox::stacks;

#[test]
fn test_operation() {
    let op = Operation::parse("old + 2".to_string()).unwrap();
    assert_eq!(op.run(2), 4);
}

#[test]
fn test_contains() {
    let range1 = Range::parse("1-3").unwrap();
    let range2 = Range::parse("2-3").unwrap();
    assert!(range1.contains(&range2));
    let range1 = Range::parse("1-3").unwrap();
    let range2 = Range::parse("4-5").unwrap();
    assert!(!range1.contains(&range2));
    let range1 = Range::parse("4-6").unwrap();
    let range2 = Range::parse("2-3").unwrap();
    assert!(!range1.contains(&range2));
    let range1 = Range::parse("1-3").unwrap();
    let range2 = Range::parse("2-4").unwrap();
    assert!(!range1.contains(&range2));
    let range1 = Range::parse("2-4").unwrap();
    let range2 = Range::parse("1-3").unwrap();
    assert!(!range1.contains(&range2));
}

#[test]
fn test_overlaps() {
    let range1 = Range::parse("1-3").unwrap();
    let range2 = Range::parse("2-3").unwrap();
    assert!(range1.overlaps(&range2));
    let range1 = Range::parse("1-3").unwrap();
    let range2 = Range::parse("4-5").unwrap();
    assert!(!range1.overlaps(&range2));
    let range1 = Range::parse("4-6").unwrap();
    let range2 = Range::parse("2-3").unwrap();
    assert!(!range1.overlaps(&range2));
    let range1 = Range::parse("1-3").unwrap();
    let range2 = Range::parse("2-4").unwrap();
    assert!(range1.overlaps(&range2));
    let range1 = Range::parse("2-4").unwrap();
    let range2 = Range::parse("1-3").unwrap();
    assert!(range1.overlaps(&range2));
}

#[test]
fn test_case() {
    let instruction = stacks::Instruction::parse("move 12 from 5 to 4").unwrap();
    assert_eq!(instruction.amount, 12 as u8);
    assert_eq!(instruction.from, 5 as u8);
    assert_eq!(instruction.to, 4 as u8);
}

#[test]
fn test_size_calculation() {
    let mut root = Directory::new_root();
    root.add_file_to_path("/", File::new("test1", 4096))
        .expect("Expect success");
    root.add_dir_to_path("/", Directory::new("a"))
        .expect("Expect success");
    root.add_file_to_path("/a", File::new("test2", 4096))
        .expect("Expect success");
    root.add_dir_to_path("/a", Directory::new("b"))
        .expect("Expect success");
    root.add_file_to_path("/a/b", File::new("test3", 4096))
        .expect("Expect success");
    root.add_file(File::new("test4", 4096));
    assert_eq!(root.size(), 4 * 4096);
    let a = root.get_path("/a").expect("expect a to be there");
    assert_eq!(a.size(), 2 * 4096);
}

#[test]
fn and_test_and_1d() {
    let vec1 = vec![true, false, false];
    let vec2 = vec![true, false, true];
    let result = and_1d(&vec1, &vec2);
    assert_eq!(result[0], true);
    assert_eq!(result[1], false);
    assert_eq!(result[2], false);
}

#[test]
fn and_test_and_2d() {
    let mat1 = vec![vec![true, false], vec![false, true]];
    let mat2 = vec![vec![true, true], vec![true, true]];
    assert_eq!(
        and_2d(&mat1, &mat2),
        vec![vec![true, false], vec![false, true]]
    );
    let mat3 = vec![vec![false, false], vec![false, false]];
    assert_eq!(
        and_2d(&mat1, &mat3),
        vec![vec![false, false], vec![false, false]]
    );
}

#[test]
fn main_test_and_1d() {
    let vec1 = vec![true, false, false];
    let vec2 = vec![true, false, true];
    let result = and_1d(&vec1, &vec2);
    assert_eq!(result[0], true);
    assert_eq!(result[1], false);
    assert_eq!(result[2], false);
}

#[test]
fn main_test_and_2d() {
    let mat1 = vec![vec![true, false], vec![false, true]];
    let mat2 = vec![vec![true, true], vec![true, true]];
    assert_eq!(
        and_2d(&mat1, &mat2),
        vec![vec![true, false], vec![false, true]]
    );
    let mat3 = vec![vec![false, false], vec![false, false]];
    assert_eq!(
        and_2d(&mat1, &mat3),
        vec![vec![false, false], vec![false, false]]
    );
}

#[test]
fn test_get_trees_and_find_hidden_ones() {
    let input = "30373\n25512\n65332\n33549\n35390\n".to_string();
    let trees = forest::get_tree_matrix(&input).unwrap();
    let reference: Vec<Vec<u8>> = vec![
        vec![3, 0, 3, 7, 3],
        vec![2, 5, 5, 1, 2],
        vec![6, 5, 3, 3, 2],
        vec![3, 3, 5, 4, 9],
        vec![3, 5, 3, 9, 0],
    ];
    assert_eq!(trees, reference);

    let reference: Vec<Vec<bool>> = vec![
        vec![false, true, true, false, true],
        vec![false, false, true, true, true],
        vec![false, true, true, true, true],
        vec![false, true, false, true, false],
        vec![false, false, true, false, true],
    ];
    assert_eq!(
        forest::get_hidden_matrix_in_direction(&trees, forest::Direction::RIGHT),
        reference
    )
}

#[test]
fn test_program() {
    let snapshots: Vec<u32> = vec![3];
    let program = cpu::load_program("noop\naddx 3\naddx -5".to_string()).unwrap();
    assert_eq!(3, cpu::run_with_linebreaks_at(program, &snapshots));

    let program = cpu::load_program("addx 1\nnoop\naddx 2\naddx 5\naddx 2\nnoop".to_string())
        .unwrap();
    let snapshots: Vec<u32> = vec![2, 5];
    assert_eq!(12, cpu::run_with_linebreaks_at(program, &snapshots));

    let snapshots: Vec<u32> = vec![3, 6];
    let program = cpu::load_program("addx 1\nnoop\naddx 2\naddx 5\naddx 2\nnoop".to_string())
        .unwrap();
    assert_eq!(30, cpu::run_with_linebreaks_at(program, &snapshots));
}

#[test]
fn test_cpu_cycle_bookkeeping() {
    let program = cpu::load_program("noop\naddx 3".to_string()).unwrap();
    let mut radio = cpu::RadioCPU::new(program);
    assert!(!radio.halt());
    radio.load();
    radio.tick();
    assert!(radio.op_status());
    radio.finish_op();
    assert_eq!(radio.x, 1);
    radio.load();
    radio.reset_op_count();
    radio.tick();
    assert!(!radio.op_status());
    radio.tick();
    assert!(radio.op_status());
    radio.finish_op();
    assert_eq!(radio.x, 4);
    assert!(radio.halt());
}

#[test]
fn test_sprite_in_range() {
    assert!(cpu::sprite_in_range(5, 5));
    assert!(cpu::sprite_in_range(6, 5));
    assert!(cpu::sprite_in_range(7, 5));
    assert!(!cpu::sprite_in_range(8, 5));
    assert!(!cpu::sprite_in_range(4, 5));
}

#[test]
fn test_cpu_parse_rejects_junk() {
    assert!(cpu::Instruction::parse("addx").is_none());
    assert!(cpu::Instruction::parse("addx five").is_none());
    assert!(cpu::Instruction::parse("jmp 3").is_none());
    assert!(cpu::Instruction::parse("noop").is_some());
    assert!(cpu::Instruction::parse("addx -5").is_some());
}

#[test]
fn test_rps_round_points() {
    // A Y: they play rock, we play paper and win: 2 + 6
    let (theirs, ours, _) = rps::parse_recommendation("A Y").unwrap();
    let round = rps::Round::new(ours, theirs);
    assert_eq!(round.points(), 8);
    // the second reading recommends a draw: copy their rock, 1 + 3
    let (theirs, _, outcome) = rps::parse_recommendation("A Y").unwrap();
    let choice = rps::implied_choice(theirs, outcome);
    assert_eq!(rps::Round::new(choice, theirs).points(), 4);
    assert!(rps::parse_recommendation("Q Y").is_none());
    assert!(rps::parse_recommendation("A Q").is_none());
}

#[test]
fn test_crate_movers() {
    let mut stacks_a: Vec<Vec<char>> = vec![vec!['Z', 'N'], vec!['M', 'C', 'D'], vec!['P']];
    let instruction = stacks::Instruction {
        amount: 2,
        from: 1,
        to: 0,
    };
    stacks::execute_instruction_on_cratemover9000(&mut stacks_a, instruction);
    assert_eq!(stacks_a, vec![vec!['Z', 'N', 'D', 'C'], vec!['M'], vec!['P']]);

    let mut stacks_b: Vec<Vec<char>> = vec![vec!['Z', 'N'], vec!['M', 'C', 'D'], vec!['P']];
    stacks::execute_instruction_on_cratemover9001(&mut stacks_b, instruction);
    assert_eq!(stacks_b, vec![vec!['Z', 'N', 'C', 'D'], vec!['M'], vec!['P']]);
}

#[test]
fn test_fresh_stacks_need_a_full_picture() {
    assert!(stacks::get_fresh_stacks("too\nshort").is_none());
}

#[test]
fn test_first_markers() {
    assert_eq!(marker::get_first_packet_marker("mjqjpqmgbljsphdztnvjfqwrcgsmlb"), Some(7));
    assert_eq!(marker::get_first_message_marker("mjqjpqmgbljsphdztnvjfqwrcgsmlb"), Some(19));
    assert_eq!(marker::get_first_packet_marker("aaaaaaa"), None);
    assert_eq!(marker::get_first_packet_marker(""), None);
}

#[test]
fn test_marker_buffer() {
    let mut buffer: Vec<char> = Vec::new();
    marker::add_to_buffer(&mut buffer, 'a', 2);
    marker::add_to_buffer(&mut buffer, 'b', 2);
    marker::add_to_buffer(&mut buffer, 'c', 2);
    assert_eq!(buffer, vec!['b', 'c']);
    assert!(marker::is_marker(&buffer, 2));
    marker::add_to_buffer(&mut buffer, 'c', 2);
    assert!(!marker::is_marker(&buffer, 2));
}

#[test]
fn test_change_directory() {
    assert_eq!(puzzlebox::dirtree::change_directory("/a/b", "/c"), "/c");
    assert_eq!(puzzlebox::dirtree::change_directory("/a", "b"), "//a/b");
    assert_eq!(puzzlebox::dirtree::change_directory("/a/b", ".."), "//a");
}

#[test]
fn test_modify_root() {
    let mut root = Directory::new_root();
    assert!(root.modify_root("/", "dir a"));
    assert!(root.modify_root("/a", "100 b.txt"));
    assert_eq!(root.size(), 100);
    assert!(!root.modify_root("/missing", "dir c"));
    assert!(!root.modify_root("/", "nonsense"));
}

#[test]
fn test_comma_separated_values() {
    let vals = puzzlebox::monkey::parse_comma_separated_values("52, 60, 85").unwrap();
    assert_eq!(vals, vec![52, 60, 85]);
    assert!(puzzlebox::monkey::parse_comma_separated_values("52, x").is_none());
}

#[test]
fn test_operation_variants() {
    let op = Operation::parse("old * 17".to_string()).unwrap();
    assert_eq!(op.run(3), 3);
    let op = Operation::parse("old + old".to_string()).unwrap();
    assert_eq!(op.run(21), 42);
    assert!(Operation::parse("old - 2".to_string()).is_none());
    assert!(Operation::parse("old +".to_string()).is_none());
}

#[test]
fn test_parser() {
    let string = "Monkey 0:
  Starting items: 52, 60, 85, 69, 75, 75
  Operation: new = old * 17
  Test: divisible by 13
    If true: throw to monkey 6
    If false: throw to monkey 7";
    let (input, monkey_index) = puzzlebox::monkey::parse_monkey(string).expect("should be parseable");
    assert_eq!(monkey_index, "0");
    assert!(input.starts_with("  Test: divisible by 13"));
}
