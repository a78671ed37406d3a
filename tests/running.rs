use neuro_bf::{decode, Processor, RunStatus, StepEvent, VmError, MEMORY_SIZE};

fn loaded(text: &str) -> Processor {
    let mut p = Processor::new();
    p.load(decode(text).unwrap());
    p
}

#[test]
fn fresh_processor_is_blank() {
    let p = Processor::new();
    assert_eq!(p.pc(), 0);
    assert_eq!(p.pointer(), 0);
    assert_eq!(p.program_len(), 0);
    assert_eq!(p.pending_input(), 0);
    assert_eq!(p.cell(), 0);
    assert_eq!(p.cell_at(MEMORY_SIZE - 1), Some(0));
    assert_eq!(p.cell_at(MEMORY_SIZE), None);
}

#[test]
fn outputs_three_after_three_increments() {
    let mut p = loaded("+++.");
    let mut out = Vec::new();
    assert_eq!(p.run(&mut out, 1000), Ok(RunStatus::Halted));
    assert_eq!(out, vec![3u8]);
}

#[test]
fn loop_clears_cell_and_halts() {
    let mut p = loaded("+[-]");
    let mut out = Vec::new();
    assert_eq!(p.run(&mut out, 1000), Ok(RunStatus::Halted));
    assert_eq!(p.pc(), 4);
    assert_eq!(p.pc(), p.program_len());
    assert_eq!(p.cell(), 0);
    assert!(out.is_empty());
}

#[test]
fn increment_wraps_to_zero() {
    let text = "+".repeat(256);
    let mut p = loaded(&text);
    let mut out = Vec::new();
    assert_eq!(p.run(&mut out, 255), Ok(RunStatus::Paused));
    assert_eq!(p.cell(), 255);
    assert_eq!(p.step(), Ok(StepEvent::Continued));
    assert_eq!(p.cell(), 0);
}

#[test]
fn decrement_wraps_to_255() {
    let mut p = loaded("-");
    assert_eq!(p.step(), Ok(StepEvent::Continued));
    assert_eq!(p.cell(), 255);
}

#[test]
fn input_line_is_split_into_bytes() {
    let mut p = loaded(",.,");
    let mut out = Vec::new();
    assert_eq!(p.run(&mut out, 1000), Ok(RunStatus::NeedsInput));
    assert_eq!(p.pc(), 0);
    p.feed(b"A\n");
    assert_eq!(p.pending_input(), 2);
    assert_eq!(p.run(&mut out, 1000), Ok(RunStatus::Halted));
    assert_eq!(out, b"A".to_vec());
    assert_eq!(p.cell(), b'\n');
    assert_eq!(p.pending_input(), 0);
}

#[test]
fn input_waits_without_changing_state() {
    let mut p = loaded("+,");
    assert_eq!(p.step(), Ok(StepEvent::Continued));
    assert_eq!(p.step(), Ok(StepEvent::NeedsInput));
    assert_eq!(p.pc(), 1);
    assert_eq!(p.cell(), 1);
    p.feed(b"z");
    assert_eq!(p.step(), Ok(StepEvent::Continued));
    assert_eq!(p.cell(), b'z');
}

#[test]
fn moving_left_of_zero_fails() {
    let mut p = loaded("<");
    let mut out = Vec::new();
    assert_eq!(p.run(&mut out, 1000), Err(VmError::OutOfBounds));
    assert_eq!(p.pointer(), 0);
    assert_eq!(p.pc(), 0);
}

#[test]
fn moving_right_off_the_tape_fails() {
    let text = ">".repeat(MEMORY_SIZE);
    let mut p = loaded(&text);
    let mut out = Vec::new();
    assert_eq!(p.run(&mut out, u64::MAX), Err(VmError::OutOfBounds));
    assert_eq!(p.pointer(), MEMORY_SIZE - 1);
    assert_eq!(p.pc(), MEMORY_SIZE - 1);
}

#[test]
fn empty_program_halts_at_once() {
    let mut p = Processor::new();
    let mut out = Vec::new();
    assert_eq!(p.run(&mut out, 0), Ok(RunStatus::Halted));
    assert_eq!(p.step(), Ok(StepEvent::Halted));
    assert_eq!(p.pc(), 0);
    assert!(out.is_empty());
}

#[test]
fn endless_loop_pauses_and_resumes() {
    let mut p = loaded("+[]");
    let mut out = Vec::new();
    assert_eq!(p.run(&mut out, 50), Ok(RunStatus::Paused));
    assert_eq!(p.run(&mut out, 50), Ok(RunStatus::Paused));
    assert_eq!(p.cell(), 1);
}

#[test]
fn step_reports_output_byte() {
    let mut p = loaded("++.");
    assert_eq!(p.step(), Ok(StepEvent::Continued));
    assert_eq!(p.step(), Ok(StepEvent::Continued));
    assert_eq!(p.step(), Ok(StepEvent::Output(2)));
    assert_eq!(p.step(), Ok(StepEvent::Halted));
}

#[test]
fn output_is_appended_after_existing_bytes() {
    let mut p = loaded("+.+.");
    let mut out = vec![9u8];
    assert_eq!(p.run(&mut out, 1000), Ok(RunStatus::Halted));
    assert_eq!(out, vec![9u8, 1, 2]);
}

#[test]
fn hello_program_prints_hi() {
    let mut p = loaded("++++++++[>+++++++++<-]>.+.");
    let mut out = Vec::new();
    assert_eq!(p.run(&mut out, 10_000), Ok(RunStatus::Halted));
    assert_eq!(out, b"HI".to_vec());
}

#[test]
fn load_resets_tape_and_keeps_pending_input() {
    let mut p = loaded(">+++");
    let mut out = Vec::new();
    assert_eq!(p.run(&mut out, 1000), Ok(RunStatus::Halted));
    assert_eq!(p.cell_at(1), Some(3));
    p.feed(b"xy");
    p.load(decode(",").unwrap());
    assert_eq!(p.pc(), 0);
    assert_eq!(p.pointer(), 0);
    assert_eq!(p.cell_at(1), Some(0));
    assert_eq!(p.pending_input(), 2);
    assert_eq!(p.run(&mut out, 1000), Ok(RunStatus::Halted));
    assert_eq!(p.cell(), b'x');
}
