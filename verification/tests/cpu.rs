use puzzles::cpu::{extend_a, find_seed, render_outputs, tail_of, Cpu, Memory, Regfile};

fn run(program: &[u8], regs: Regfile) -> (Option<Vec<u8>>, Regfile) {
    let mem = Memory(program);
    let mut cpu = Cpu::new().with_regs(regs).with_mem(&mem);
    let out = cpu.run(64);
    (out, cpu.regs)
}

#[test]
fn sample_program_prints_its_tape() {
    let (out, _) = run(&[0, 1, 5, 4, 3, 0], Regfile::with_a(729));
    assert_eq!(out, Some(vec![4, 6, 3, 5, 6, 3, 5, 2, 1, 0]));
}

#[test]
fn counting_program() {
    let (out, regs) = run(&[0, 1, 5, 4, 3, 0], Regfile::with_a(2024));
    assert_eq!(out, Some(vec![4, 2, 5, 6, 7, 7, 7, 7, 3, 1, 0]));
    assert_eq!(regs.a, 0);
}

#[test]
fn single_instructions() {
    let mem = Memory(&[2, 6, 3, 0]);
    let mut cpu = Cpu::new().with_regs(Regfile { a: 0, b: 0, c: 9, o: 0 }).with_mem(&mem);
    assert!(cpu.ready());
    cpu.step();
    assert_eq!(cpu.regs.b, 1);
    assert_eq!(cpu.ip, 2);

    let mem = Memory(&[1, 7, 3, 0]);
    let mut cpu = Cpu::new().with_regs(Regfile { a: 0, b: 29, c: 0, o: 0 }).with_mem(&mem);
    cpu.step();
    assert_eq!(cpu.regs.b, 26);

    let mem = Memory(&[4, 0, 3, 0]);
    let mut cpu = Cpu::new().with_regs(Regfile { a: 0, b: 2024, c: 43690, o: 0 }).with_mem(&mem);
    cpu.step();
    assert_eq!(cpu.regs.b, 44354);

    let mem = Memory(&[6, 2, 7, 3, 0, 1, 5, 4, 3, 0]);
    let mut cpu = Cpu::new().with_regs(Regfile::with_a(41)).with_mem(&mem);
    cpu.step();
    assert_eq!(cpu.regs.b, 10);
    cpu.step();
    assert_eq!(cpu.regs.c, 5);
    cpu.step();
    assert_eq!(cpu.regs.a, 20);
    cpu.step();
    assert_eq!(cpu.regs.o, 4);
    assert_eq!(cpu.ip, 8);
}

#[test]
fn operands() {
    let mem = Memory(&[0, 5, 3, 0]);
    let cpu = Cpu::new().with_regs(Regfile { a: 1, b: 2, c: 3, o: 0 }).with_mem(&mem);
    assert_eq!(cpu.literal(), 5);
    assert_eq!(cpu.combo(), 2);
}

#[test]
fn a_pass_that_cannot_run_gives_none() {
    let (out, _) = run(&[5, 7, 3, 0], Regfile::with_a(1));
    assert_eq!(out, None);
    let (out, _) = run(&[5, 4], Regfile::with_a(1));
    assert_eq!(out, None);
    let (out, _) = run(&[0, 5, 3, 0], Regfile { a: 1, b: 64, c: 0, o: 0 });
    assert_eq!(out, None);
    let mem = Memory(&[8, 0]);
    assert!(!Cpu::new().with_mem(&mem).ready());
    assert!(!Cpu::new().ready());
}

#[test]
fn a_machine_that_never_stops_runs_out_of_fuel() {
    let (out, _) = run(&[5, 4, 3, 0], Regfile::with_a(1));
    assert_eq!(out, None);
}

#[test]
fn single_loop_returns_to_the_start() {
    let mem = Memory(&[0, 3, 5, 4, 3, 0]);
    let mut cpu = Cpu::new().with_regs(Regfile::with_a(2024)).with_mem(&mem);
    let regs = cpu.run_single_loop().unwrap();
    assert_eq!(regs.a, 253);
    assert_eq!(regs.o, 5);
    assert_eq!(cpu.ip, 0);
}

#[test]
fn extended_seeds_reproduce_the_tape() {
    let program: [u8; 6] = [0, 3, 5, 4, 3, 0];
    let mem = Memory(&program);
    let cpu = Cpu::new().with_mem(&mem);
    let mut seeds = vec![0u64];
    for matched in 0..program.len() {
        let goal = &program[program.len() - matched - 1..];
        let mut next = Vec::new();
        for a in &seeds {
            for extended in extend_a(&cpu, *a, goal, 64) {
                let mut check = cpu.with_regs(Regfile::with_a(extended));
                assert_eq!(check.run(64).unwrap(), goal);
                next.push(extended);
            }
        }
        seeds = next;
    }
    assert_eq!(seeds.iter().min(), Some(&117440));
}

#[test]
fn extend_a_appends_three_bits() {
    let mem = Memory(&[0, 3, 5, 4, 3, 0]);
    let cpu = Cpu::new().with_mem(&mem);
    assert_eq!(extend_a(&cpu, 0, &[0], 64), vec![0, 1, 2, 3, 4, 5, 6, 7]);
    assert_eq!(extend_a(&cpu, 3, &[3, 0], 64), vec![24, 25, 26, 27, 28, 29, 30, 31]);
    assert_eq!(extend_a(&cpu, 3, &[4, 0], 64), Vec::<u64>::new());
}

#[test]
fn outputs_are_joined_by_commas() {
    assert_eq!(render_outputs(&vec![4, 6, 3, 5, 6, 3, 5, 2, 1, 0]), "4,6,3,5,6,3,5,2,1,0");
    assert_eq!(render_outputs(&vec![7]), "7");
    assert_eq!(render_outputs(&vec![]), "");
    assert_eq!(render_outputs(&vec![10, 255]), "10,255");
}

#[test]
fn the_lowest_seed_reproduces_the_program() {
    let program: [u8; 6] = [0, 3, 5, 4, 3, 0];
    let mem = Memory(&program);
    let cpu = Cpu::new().with_mem(&mem);
    let seed = find_seed(&cpu, &program, 64).unwrap();
    assert_eq!(seed, 117440);
    let mut check = cpu.with_regs(Regfile::with_a(seed));
    assert_eq!(check.run(64).unwrap(), program);
    assert_eq!(tail_of(&program, 2), vec![3, 0]);
    assert_eq!(tail_of(&program, 0), Vec::<u8>::new());
}

#[test]
fn a_program_that_cannot_print_itself_has_no_seed() {
    let program: [u8; 6] = [0, 3, 5, 5, 3, 0];
    let mem = Memory(&program);
    let cpu = Cpu::new().with_mem(&mem);
    assert_eq!(find_seed(&cpu, &program, 64), None);
    assert_eq!(find_seed(&cpu, &[], 64), Some(0));
}

#[test]
fn after_a_run_the_machine_rests_at_the_start() {
    let program = [2, 4, 1, 6, 7, 5, 4, 4, 1, 7, 0, 3, 5, 5, 3, 0];
    let mem = Memory(&program);
    let mut cpu = Cpu::new().with_mem(&mem).with_regs(Regfile::with_a(12));
    assert_eq!(cpu.run(64), Some(vec![6, 0]));
    assert_eq!(cpu.ip, 0);
    assert_eq!(cpu.regs.a, 0);
    assert_eq!(cpu.regs.o, 0);
    let mut cpu = Cpu::new().with_mem(&mem).with_regs(Regfile::with_a(1));
    assert_eq!(cpu.run(64), Some(vec![0]));
    assert_eq!((cpu.ip, cpu.regs.a), (0, 0));
    let mut cpu = Cpu::new().with_mem(&mem).with_regs(Regfile::with_a(8));
    assert_eq!(cpu.run(64), Some(vec![1, 0]));
    assert_eq!((cpu.ip, cpu.regs.a), (0, 0));
    let mut once = Cpu::new().with_mem(&mem).with_regs(Regfile::with_a(1));
    let last = once.run_single_loop().unwrap();
    assert_eq!((cpu.regs.a, cpu.regs.b, cpu.regs.c, cpu.regs.o), (last.a, last.b, last.c, last.o));
}
