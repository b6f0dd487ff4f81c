use advent2022::crt::{parse_instrs, Cpu, CrtError, Instr};

const TEST_DATA: &str = r#"addx 15
addx -11
addx 6
addx -3
addx 5
addx -1
addx -8
addx 13
addx 4
noop
addx -1
addx 5
addx -1
addx 5
addx -1
addx 5
addx -1
addx 5
addx -1
addx -35
addx 1
addx 24
addx -19
addx 1
addx 16
addx -11
noop
noop
addx 21
addx -15
noop
noop
addx -3
addx 9
addx 1
addx -3
addx 8
addx 1
addx 5
noop
noop
noop
noop
noop
addx -36
noop
addx 1
addx 7
noop
noop
noop
addx 2
addx 6
noop
noop
noop
noop
noop
addx 1
noop
noop
addx 7
addx 1
noop
addx -13
addx 13
addx 7
noop
addx 1
addx -33
noop
noop
noop
addx 2
noop
noop
noop
addx 8
noop
addx -1
addx 2
addx 1
noop
addx 17
addx -9
addx 1
addx 1
addx -3
addx 11
noop
noop
addx 1
noop
addx 1
noop
noop
addx -13
addx -19
addx 1
addx 3
addx 26
addx -30
addx 12
addx -1
addx 3
addx 1
noop
noop
noop
addx -9
addx 18
addx 1
addx 2
noop
noop
addx 9
noop
noop
noop
addx -1
addx 2
addx -37
addx 1
addx 3
noop
addx 15
addx -21
addx 22
addx -6
addx 1
noop
addx 2
addx 1
noop
addx -10
noop
noop
addx 20
addx 1
addx 2
addx 2
addx -6
addx -11
noop
noop
noop"#;

fn sample() -> Vec<Instr> {
    TEST_DATA.lines().map(|l| parse_instrs(l).expect("Failed to parse")).collect()
}

#[test]
fn first_instruction_of_the_sample() {
    let mut lines = TEST_DATA.lines();
    let instrs = parse_instrs(lines.next().unwrap()).unwrap();
    assert_eq!(instrs, Instr::Addx(15));
}

#[test]
fn test_run() {
    let lines = sample();

    let mut cpu = Cpu::new();

    let (_, signal_strength) = cpu.run(&lines).unwrap();

    assert_eq!(signal_strength, 13140);
}

#[test]
fn screen_of_the_sample() {
    let mut cpu = Cpu::new();
    let (x, _) = cpu.run(&sample()).unwrap();
    assert_eq!(x, 17);
    assert_eq!(cpu.tick, 241);
    let lines = cpu.crt.iter().collect::<String>();
    let expected = [
        "##..##..##..##..##..##..##..##..##..##..",
        "###...###...###...###...###...###...###.",
        "####....####....####....####....####....",
        "#####.....#####.....#####.....#####.....",
        "######......######......######......####",
        "#######.......#######.......#######.....",
    ];
    for i in 0..6 {
        assert_eq!(&lines[i * 40..(i + 1) * 40], expected[i]);
    }
    assert_eq!(&lines[240..], " ".repeat(20));
}

#[test]
fn small_program() {
    let mut cpu = Cpu::new();
    let r = cpu.run(&[Instr::Noop, Instr::Addx(3), Instr::Addx(-5)]);
    assert_eq!(r, Ok((-1, 0)));
    assert_eq!(cpu.tick, 6);
    assert_eq!(cpu.crt[0..6].iter().collect::<String>(), "##### ");
    let mut other = Cpu::new();
    assert_eq!(other.run(&[Instr::Addx(10), Instr::Noop, Instr::Noop, Instr::Addx(-8)]), Ok((3, 0)));
    assert_eq!(other.crt[0..7].iter().collect::<String>(), "##.... ");
}

#[test]
fn instructions_as_text() {
    assert_eq!(parse_instrs("noop"), Ok(Instr::Noop));
    assert_eq!(parse_instrs("noop 12"), Ok(Instr::Noop));
    assert_eq!(parse_instrs("addx   -7 "), Ok(Instr::Addx(-7)));
    assert_eq!(parse_instrs("addx"), Err(CrtError::BadNumber));
    assert_eq!(parse_instrs("addx x"), Err(CrtError::BadNumber));
    assert_eq!(parse_instrs("addx 2147483648"), Err(CrtError::BadNumber));
    assert_eq!(parse_instrs("mulx 2"), Err(CrtError::Invalid));
    assert_eq!(parse_instrs("no"), Err(CrtError::Invalid));
}

#[test]
fn signal_is_sampled_every_forty_cycles() {
    let mut cpu = Cpu::new();
    cpu.tick = 20;
    cpu.x = 21;
    assert_eq!(cpu.check_signal(), Some(420));
    cpu.tick = 21;
    assert_eq!(cpu.check_signal(), None);
    cpu.tick = 60;
    cpu.x = -2;
    assert_eq!(cpu.check_signal(), Some(-120));
}

#[test]
fn the_screen_has_room_for_260_cycles() {
    let mut cpu = Cpu::new();
    let noops = vec![Instr::Noop; 260];
    assert_eq!(cpu.run(&noops), Ok((1, 20 + 60 + 100 + 140 + 180 + 220 + 260)));
    assert_eq!(cpu.run(&[Instr::Noop]), Err(CrtError::ScreenFull));
    let mut far = Cpu::new();
    assert_eq!(far.run(&[Instr::Addx(i32::MAX)]), Err(CrtError::Overflow));
}
