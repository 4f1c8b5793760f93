use native32emu::action_vm::{frame_step, ActionProp, ActionVM, VmHost, VmRequest, VmRun};
use native32emu::actions::Action;
use native32emu::file_loader::{ActionPayload, Native32Reader};

#[test]
fn test_action_prop_from_u32() {
    assert_eq!(ActionProp::from_u32(0), Some(ActionProp::X));
    assert_eq!(ActionProp::from_u32(1), Some(ActionProp::Y));
    assert_eq!(ActionProp::from_u32(4), Some(ActionProp::CurrentFrame));
    assert_eq!(ActionProp::from_u32(7), Some(ActionProp::Visible));
    assert_eq!(ActionProp::from_u32(13), Some(ActionProp::Name));
    assert_eq!(ActionProp::from_u32(10), None); // unused
    assert_eq!(ActionProp::from_u32(99), None);
}

#[derive(Default)]
struct MockHost {
    stopped: bool,
    played: bool,
    frame: u32,
    goto_calls: Vec<(String, u32, bool)>,
    removed: Vec<String>,
    urls: Vec<(String, String)>,
    time: u32,
    stop_sounds_called: bool,
}

impl VmHost for MockHost {
    fn stop(&mut self, _target: &str) {
        self.stopped = true;
    }
    fn play(&mut self, _target: &str) {
        self.played = true;
    }
    fn get_frame(&mut self, _target: &str) -> u32 {
        self.frame
    }
    fn goto_frame(&mut self, target: &str, frame: u32, playing: bool) {
        self.goto_calls.push((target.to_string(), frame, playing));
    }
    fn stop_sounds(&mut self, _target: &str) {
        self.stop_sounds_called = true;
    }
    fn remove_sprite(&mut self, name: &str) {
        self.removed.push(name.to_string());
    }
    fn get_time(&self) -> u32 {
        self.time
    }
    fn get_url(&mut self, url: &str, target: &str) {
        self.urls.push((url.to_string(), target.to_string()));
    }
}

/// An action table at base 0x60 with operands placed after it.
fn make_test_reader(actions: &[(Action, Option<ActionPayload>)]) -> Native32Reader {
    let base = 0x60usize;
    let n = actions.len();
    let mut data = vec![0u8; base + n * 8 + n * 64 + 128];
    for (i, (op, payload)) in actions.iter().enumerate() {
        let offset = base + i * 8;
        data[offset..offset + 4].copy_from_slice(&op.to_u32().to_le_bytes());
        match payload {
            None => {}
            Some(ActionPayload::Integer(val)) => {
                let p = base + n * 8 + i * 4;
                data[p..p + 2].copy_from_slice(&val.to_le_bytes());
                data[offset + 4..offset + 8].copy_from_slice(&((p - base) as u32).to_le_bytes());
            }
            Some(ActionPayload::String(s)) => {
                let p = base + n * 8 + i * 64;
                data[p..p + s.len()].copy_from_slice(s.as_bytes());
                data[offset + 4..offset + 8].copy_from_slice(&((p - base) as u32).to_le_bytes());
            }
        }
    }
    let mut reader = Native32Reader::new(data);
    reader.base = base;
    reader
}

fn num(s: &str) -> f64 {
    s.parse::<f64>().unwrap_or(0.0)
}

/// Runs the machine, doing the numeric work that the steps hand back.
fn run_vm(actions: &[(Action, Option<ActionPayload>)]) -> (ActionVM, MockHost) {
    run_vm_on(
        actions,
        MockHost {
            frame: 1,
            ..Default::default()
        },
    )
}

/// Runs the machine against `host`.
fn run_vm_on(actions: &[(Action, Option<ActionPayload>)], mut host: MockHost) -> (ActionVM, MockHost) {
    let mut reader = make_test_reader(actions);
    let mut vm = ActionVM::new();
    let mut run = VmRun::new(1, "");
    for _ in 0..1000 {
        let instr = reader.get_action(run.pc);
        match vm.step(&mut run, &instr) {
            VmRequest::Halt => break,
            VmRequest::Continue => {}
            VmRequest::Binary { op, a, b } => {
                let r = match op {
                    Action::Add => num(&a) + num(&b),
                    Action::Subtract => num(&a) - num(&b),
                    Action::Less => (num(&a) < num(&b)) as i32 as f64,
                    _ => 0.0,
                };
                run.push(r.to_string());
            }
            VmRequest::Branch { cond, offset } => {
                if num(&cond) as i64 != 0 {
                    run.jump(offset);
                } else {
                    run.advance();
                }
            }
            VmRequest::Stop { target } => host.stop(&target),
            VmRequest::Play { target } => host.play(&target),
            VmRequest::StopSounds { target } => host.stop_sounds(&target),
            VmRequest::RemoveSprite { name } => host.remove_sprite(&name),
            VmRequest::SetFrame { target, frame, playing } => host.goto_frame(&target, frame, playing),
            VmRequest::GetUrl { url, target } => host.get_url(&url, &target),
            VmRequest::AskFrame { target, forward } => {
                let current = host.get_frame(&target);
                match frame_step(target, current, forward) {
                    VmRequest::SetFrame { target, frame, playing } => host.goto_frame(&target, frame, playing),
                    other => panic!("unexpected answer {:?}", other),
                }
            }
            VmRequest::AskTime => run.push_time(host.get_time()),
            VmRequest::GotoFrame { frame, playing } => {
                let target = run.target.clone();
                host.goto_frame(&target, num(&frame) as u32, playing)
            }
            other => panic!("unexpected request {:?}", other),
        }
    }
    (vm, host)
}

fn s(v: &str) -> Option<ActionPayload> {
    Some(ActionPayload::String(v.to_string()))
}

#[test]
fn set_and_get_variables_ignore_case() {
    let (vm, _) = run_vm(&[
        (Action::Push, s("Score")),
        (Action::Push, s("10")),
        (Action::SetVariable, None),
        (Action::Push, s("copy")),
        (Action::Push, s("SCORE")),
        (Action::GetVariable, None),
        (Action::SetVariable, None),
        (Action::Push, s("missing")),
        (Action::Push, s("nothing")),
        (Action::GetVariable, None),
        (Action::SetVariable, None),
        (Action::End, None),
    ]);
    assert_eq!(vm.get_var("score"), Some(&"10".to_string()));
    assert_eq!(vm.get_var("copy"), Some(&"10".to_string()));
    assert_eq!(vm.get_var("missing"), Some(&"".to_string()));
    assert_eq!(vm.get_var("Score"), None);
}

#[test]
fn string_operations() {
    let (vm, _) = run_vm(&[
        (Action::Push, s("a")),
        (Action::Push, s("foo")),
        (Action::Push, s("bar")),
        (Action::StringAdd, None),
        (Action::SetVariable, None),
        (Action::Push, s("l")),
        (Action::Push, s("h\u{e9}")),
        (Action::StringLength, None),
        (Action::SetVariable, None),
        (Action::Push, s("lt")),
        (Action::Push, s("abc")),
        (Action::Push, s("abd")),
        (Action::StringLess, None),
        (Action::SetVariable, None),
        (Action::Push, s("eq")),
        (Action::Push, s("x")),
        (Action::Push, s("y")),
        (Action::StringEquals, None),
        (Action::SetVariable, None),
        (Action::Push, s("c")),
        (Action::Push, s("A")),
        (Action::CharToAscii, None),
        (Action::SetVariable, None),
        (Action::End, None),
    ]);
    assert_eq!(vm.get_var("a"), Some(&"foobar".to_string()));
    // The reader takes each byte of "h\u{e9}" (three in UTF-8) as one
    // Latin-1 character; two of them take two bytes each again.
    assert_eq!(vm.get_var("l"), Some(&"5".to_string()));
    assert_eq!(vm.get_var("lt"), Some(&"1".to_string()));
    assert_eq!(vm.get_var("eq"), Some(&"0".to_string()));
    assert_eq!(vm.get_var("c"), Some(&"65".to_string()));
}

#[test]
fn jumps_and_branches() {
    // 1: Push "x"  2: Push "1"  3: If +2 -> 6   4: Push "skipped" 5: Jump +0
    // 6: Push "taken" 7: SetVariable 8: End
    let (vm, _) = run_vm(&[
        (Action::Push, s("x")),
        (Action::Push, s("1")),
        (Action::If, Some(ActionPayload::Integer(2))),
        (Action::Push, s("skipped")),
        (Action::Jump, Some(ActionPayload::Integer(0))),
        (Action::Push, s("taken")),
        (Action::SetVariable, None),
        (Action::End, None),
    ]);
    assert_eq!(vm.get_var("x"), Some(&"taken".to_string()));
}

#[test]
fn loop_counts_down_with_backward_jump() {
    // n = 3; while 0 < n: n = n - 1
    let (vm, _) = run_vm(&[
        (Action::Push, s("n")),                        // 1
        (Action::Push, s("3")),                        // 2
        (Action::SetVariable, None),                   // 3
        (Action::Push, s("n")),                        // 4
        (Action::Push, s("n")),                        // 5
        (Action::GetVariable, None),                   // 6
        (Action::Push, s("1")),                        // 7
        (Action::Subtract, None),                      // 8
        (Action::SetVariable, None),                   // 9
        (Action::Push, s("0")),                        // 10
        (Action::Push, s("n")),                        // 11
        (Action::GetVariable, None),                   // 12
        (Action::Less, None),                          // 13
        (Action::If, Some(ActionPayload::Integer(-10))), // 14 -> 4
        (Action::End, None),                           // 15
    ]);
    assert_eq!(vm.get_var("n"), Some(&"0".to_string()));
}

#[test]
fn host_calls_use_the_current_target() {
    let (_, host) = run_vm(&[
        (Action::SetTarget, s("/hero")),
        (Action::Stop, None),
        (Action::Play, None),
        (Action::NextFrame, None),
        (Action::PreviousFrame, None),
        (Action::GotoFrame, Some(ActionPayload::Integer(4))),
        (Action::Push, s("old")),
        (Action::RemoveSprite, None),
        (Action::Push, s("http://x")),
        (Action::Push, s("_self")),
        (Action::GetUrl2, None),
        (Action::End, None),
    ]);
    assert!(host.stopped);
    assert!(host.played);
    assert_eq!(
        host.goto_calls,
        vec![
            ("/hero".to_string(), 2, false),
            ("/hero".to_string(), 0, false),
            ("/hero".to_string(), 5, false),
        ]
    );
    assert_eq!(host.removed, vec!["old".to_string()]);
    assert_eq!(host.urls, vec![("http://x".to_string(), "_self".to_string())]);
}

#[test]
fn get_time_and_integer_push() {
    let mut reader = make_test_reader(&[
        (Action::GetTime, None),
        (Action::Push, Some(ActionPayload::Integer(-7))),
        (Action::End, None),
    ]);
    // Push reads string operands: an integer operand only comes from
    // branch opcodes in files, so feed the instruction by hand here.
    let mut vm = ActionVM::new();
    let host = MockHost {
        time: 1234,
        ..Default::default()
    };
    let mut run = VmRun::new(1, "");
    let first = reader.get_action(1);
    assert!(matches!(vm.step(&mut run, &first), VmRequest::AskTime));
    run.push_time(host.get_time());
    let push = Some((Action::Push, Some(ActionPayload::Integer(-7))));
    assert!(matches!(vm.step(&mut run, &push), VmRequest::Continue));
    assert_eq!(run.stack, vec!["1234".to_string(), "-7".to_string()]);
    assert_eq!(run.pc, 3);
    assert!(matches!(vm.step(&mut run, &None), VmRequest::Halt));
}

#[test]
fn random_number_stays_below_bound() {
    let mut vm = ActionVM::new();
    for _ in 0..100 {
        assert!(vm.random_number(6) < 6);
    }
    assert_eq!(vm.random_number(0), 0);
}

#[test]
fn test_vm_stop() {
    let (_, host) = run_vm(&[(Action::Stop, None), (Action::End, None)]);
    assert!(host.stopped);
}

#[test]
fn test_vm_play() {
    let (_, host) = run_vm(&[(Action::Play, None), (Action::End, None)]);
    assert!(host.played);
}

#[test]
fn test_vm_stop_sounds() {
    let (_, host) = run_vm(&[(Action::StopSounds, None), (Action::End, None)]);
    assert!(host.stop_sounds_called);
}

#[test]
fn test_vm_next_frame() {
    let (_, host) = run_vm(&[(Action::NextFrame, None), (Action::End, None)]);
    assert_eq!(host.goto_calls.len(), 1);
    assert_eq!(host.goto_calls[0].1, 2);
}

#[test]
fn test_vm_previous_frame() {
    let (_, host) = run_vm(&[(Action::PreviousFrame, None), (Action::End, None)]);
    assert_eq!(host.goto_calls.len(), 1);
    assert_eq!(host.goto_calls[0].1, 0);
}

#[test]
fn test_vm_previous_frame_at_zero() {
    let (_, host) = run_vm_on(&[(Action::PreviousFrame, None), (Action::End, None)], MockHost::default());
    assert_eq!(host.goto_calls[0].1, 0);
}

#[test]
fn test_vm_goto_frame() {
    let (_, host) = run_vm(&[(Action::GotoFrame, Some(ActionPayload::Integer(9))), (Action::End, None)]);
    assert_eq!(host.goto_calls.len(), 1);
    assert_eq!(host.goto_calls[0].1, 10);
    assert_eq!(host.goto_calls, vec![("".to_string(), 10, false)]);
}

#[test]
fn test_vm_goto_frame2() {
    let (_, host) = run_vm(&[
        (Action::Push, Some(ActionPayload::String("5".to_string()))),
        (Action::GotoFrame2, None),
        (Action::End, None),
    ]);
    assert_eq!(host.goto_calls.len(), 1);
    assert_eq!(host.goto_calls[0].1, 5);
}

#[test]
fn test_vm_remove_sprite() {
    let (_, host) = run_vm(&[
        (Action::Push, Some(ActionPayload::String("target".to_string()))),
        (Action::RemoveSprite, None),
        (Action::End, None),
    ]);
    assert_eq!(host.removed, vec!["target"]);
}

#[test]
fn host_actions_come_back_as_requests() {
    let mut vm = ActionVM::new();
    let host = MockHost::default();
    let mut run = VmRun::new(1, "/hero");
    let goto = Some((Action::GotoFrame, Some(ActionPayload::Integer(3))));
    match vm.step(&mut run, &goto) {
        VmRequest::SetFrame { target, frame, playing } => {
            assert_eq!((target.as_str(), frame, playing), ("/hero", 4, false));
        }
        other => panic!("unexpected request {:?}", other),
    }
    assert!(host.goto_calls.is_empty());
}

#[test]
fn frame_step_goes_next_and_previous() {
    match frame_step("m".to_string(), 4, true) {
        VmRequest::SetFrame { target, frame, playing } => assert_eq!((target.as_str(), frame, playing), ("m", 5, false)),
        other => panic!("unexpected {:?}", other),
    }
    match frame_step("m".to_string(), 0, false) {
        VmRequest::SetFrame { frame, .. } => assert_eq!(frame, 0),
        other => panic!("unexpected {:?}", other),
    }
    match frame_step("m".to_string(), u32::MAX, true) {
        VmRequest::SetFrame { frame, .. } => assert_eq!(frame, 0),
        other => panic!("unexpected {:?}", other),
    }
}

#[test]
fn get_time_asks_the_host() {
    let mut vm = ActionVM::new();
    let mut run = VmRun::new(1, "");
    let ins = Some((Action::GetTime, None));
    assert!(matches!(vm.step(&mut run, &ins), VmRequest::AskTime));
    assert!(run.stack.is_empty());
    run.push_time(987);
    assert_eq!(run.stack, vec!["987".to_string()]);
}
