use cs2_server_chooser::codes::CodeSet;
use cs2_server_chooser::data::{LoadedConfig, Pop, Relay};
use cs2_server_chooser::firewall::{FirewallAction, IptablesPlan};
use cs2_server_chooser::protocol::{
    Event, RunState, Step, iptables_failure, sudo_args, sudo_input, uid_from_env,
    uid_from_id_output,
};

fn plan_with(relays: Vec<Relay>) -> IptablesPlan {
    let config = LoadedConfig {
        revision: 1,
        source: "live".to_string(),
        live: true,
        pops: vec![Pop {
            code: "x".to_string(),
            desc: "X".to_string(),
            lon_bits: 0,
            lat_bits: 0,
            tier: 0,
            relays,
            selected: false,
        }],
    };
    IptablesPlan::from_config(&config, &CodeSet::new())
}

fn ok() -> Event {
    Event::Exited { success: true, failure: String::new() }
}

fn fail(msg: &str) -> Event {
    Event::Exited { success: false, failure: msg.to_string() }
}

/// Runs an action, answering each step from `answer`, and records the steps.
fn drive(action: &FirewallAction, mut answer: impl FnMut(&Step) -> Event) -> (Vec<Vec<String>>, Result<String, String>) {
    let (mut state, mut step) = action.start();
    let mut commands = Vec::new();
    for _ in 0..100 {
        if let Step::Finish(result) = step {
            return (commands, result);
        }
        if let Step::Run(args) = &step {
            commands.push(args.clone());
        }
        let event = answer(&step);
        (state, step) = action.next_step(state, event);
    }
    panic!("protocol did not finish");
}

#[test]
fn apply_when_everything_succeeds() {
    let relays = vec![
        Relay { ipv4: [1, 1, 1, 1], port_range: [10, 20] },
        Relay { ipv4: [2, 2, 2, 2], port_range: [30, 40] },
    ];
    let action = FirewallAction::Apply(plan_with(relays));
    let (commands, result) = drive(&action, |step| match step {
        Step::QueryUid => Event::Uid(1000),
        _ => ok(),
    });
    assert_eq!(result, Ok("Applied 2 current relay blocks in CS2_SERVER_CHOOSER".to_string()));
    assert_eq!(commands.len(), 5);
    assert_eq!(commands[0], vec!["-S", "CS2_SERVER_CHOOSER"]);
    assert_eq!(commands[1][0], "-C");
    assert_eq!(commands[1][1], "OUTPUT");
    assert_eq!(commands[1][9], "1000");
    assert_eq!(commands[2], vec!["-F", "CS2_SERVER_CHOOSER"]);
    assert_eq!(commands[3][7], "1.1.1.1");
    assert_eq!(commands[3][9], "10:20");
    assert_eq!(commands[4][7], "2.2.2.2");
}

#[test]
fn apply_creates_missing_chain_and_jump() {
    let action = FirewallAction::Apply(plan_with(vec![]));
    let mut n = 0;
    let (commands, result) = drive(&action, |step| {
        n += 1;
        match step {
            Step::QueryUid => Event::Uid(7),
            Step::Run(args) if args[0] == "-S" || args[0] == "-C" => fail("missing"),
            _ => ok(),
        }
    });
    assert_eq!(result, Ok("Applied 0 current relay blocks in CS2_SERVER_CHOOSER".to_string()));
    let firsts: Vec<&str> = commands.iter().map(|c| c[0].as_str()).collect();
    assert_eq!(firsts, vec!["-S", "-N", "-C", "-A", "-F"]);
    assert_eq!(commands[3][1], "OUTPUT");
}

#[test]
fn apply_stops_at_a_failed_rule() {
    let relays = vec![
        Relay { ipv4: [1, 1, 1, 1], port_range: [10, 20] },
        Relay { ipv4: [2, 2, 2, 2], port_range: [30, 40] },
    ];
    let action = FirewallAction::Apply(plan_with(relays));
    let (commands, result) = drive(&action, |step| match step {
        Step::QueryUid => Event::Uid(0),
        Step::Run(args) if args[0] == "-A" && args[1] != "OUTPUT" => fail("iptables exited with exit status: 1"),
        _ => ok(),
    });
    assert_eq!(result, Err("iptables exited with exit status: 1".to_string()));
    assert_eq!(commands.len(), 4);
}

#[test]
fn apply_stops_when_sudo_cannot_start() {
    let action = FirewallAction::Apply(plan_with(vec![]));
    let (commands, result) = drive(&action, |_| Event::SpawnFailed("no sudo".to_string()));
    assert_eq!(result, Err("no sudo".to_string()));
    assert_eq!(commands.len(), 1);
}

#[test]
fn clear_deletes_jump_until_gone_then_removes_chain() {
    let action = FirewallAction::Clear;
    let mut deletions = 0;
    let (commands, result) = drive(&action, |step| match step {
        Step::QueryUid => Event::Uid(1000),
        Step::Run(args) if args[0] == "-D" => {
            deletions += 1;
            if deletions <= 2 { ok() } else { fail("gone") }
        }
        _ => Event::SpawnFailed("ignored".to_string()),
    });
    assert_eq!(result, Ok("Removed CS2_SERVER_CHOOSER jump and chain".to_string()));
    let firsts: Vec<&str> = commands.iter().map(|c| c[0].as_str()).collect();
    assert_eq!(firsts, vec!["-D", "-D", "-D", "-F", "-X"]);
}

#[test]
fn start_states() {
    let (state, step) = FirewallAction::Clear.start();
    assert_eq!(state, RunState::ClearUid);
    assert!(matches!(step, Step::QueryUid));
}

#[test]
fn sudo_command_lines() {
    let args = vec!["-F".to_string(), "CS2_SERVER_CHOOSER".to_string()];
    assert_eq!(sudo_args(true, "iptables", &args), vec!["-S", "-p", "", "iptables", "-F", "CS2_SERVER_CHOOSER"]);
    assert_eq!(sudo_args(false, "iptables", &args), vec!["-n", "iptables", "-F", "CS2_SERVER_CHOOSER"]);
    assert_eq!(sudo_input("hunter2"), "hunter2\n");
}

#[test]
fn failure_messages() {
    assert_eq!(iptables_failure("exit status: 1", "  \n"), "iptables exited with exit status: 1");
    assert_eq!(
        iptables_failure("exit status: 2", "  iptables: No chain.\n"),
        "iptables exited with exit status: 2: iptables: No chain."
    );
}

#[test]
fn user_ids() {
    assert_eq!(uid_from_env(Some("1000")), Some(1000));
    assert_eq!(uid_from_env(Some("+12")), Some(12));
    assert_eq!(uid_from_env(Some(" 12")), None);
    assert_eq!(uid_from_env(Some("-1")), None);
    assert_eq!(uid_from_env(Some("")), None);
    assert_eq!(uid_from_env(Some("4294967295")), Some(4294967295));
    assert_eq!(uid_from_env(Some("4294967296")), None);
    assert_eq!(uid_from_env(None), None);
    assert_eq!(uid_from_id_output(Some("1000\n")), 1000);
    assert_eq!(uid_from_id_output(Some("oops")), 0);
    assert_eq!(uid_from_id_output(None), 0);
}

#[test]
fn applying_twice_keeps_one_jump() {
    let action = FirewallAction::Apply(plan_with(vec![]));
    let mut chain = false;
    let mut jumps = 0;
    let mut runs = Vec::new();
    for _ in 0..2 {
        let (commands, result) = drive(&action, |step| match step {
            Step::QueryUid => Event::Uid(1000),
            Step::Run(args) => match args[0].as_str() {
                "-S" => Event::Exited { success: chain, failure: "no chain".to_string() },
                "-N" => {
                    chain = true;
                    ok()
                }
                "-C" => Event::Exited { success: jumps > 0, failure: "no rule".to_string() },
                "-A" if args[1] == "OUTPUT" => {
                    jumps += 1;
                    ok()
                }
                _ => ok(),
            },
            Step::Finish(_) => ok(),
        });
        assert!(result.is_ok());
        runs.push(commands.iter().map(|c| c[0].clone()).collect::<Vec<String>>());
    }
    assert_eq!(jumps, 1);
    assert_eq!(runs[0], vec!["-S", "-N", "-C", "-A", "-F"]);
    assert_eq!(runs[1], vec!["-S", "-C", "-F"]);
}

#[test]
fn error_output_is_trimmed_of_unicode_space() {
    assert_eq!(
        iptables_failure("exit status: 3", "\u{3000}\u{2003} bad rule \u{85}\u{a0}"),
        "iptables exited with exit status: 3: bad rule"
    );
    assert_eq!(uid_from_id_output(Some("\u{2028}42\u{205f}")), 42);
}

#[test]
fn error_output_trim_agrees_with_str_trim() {
    let samples = [
        "", " ", "\t\n\u{b}\u{c}\r x \u{1680}", "\u{2000}\u{200a}y\u{200b}", "\u{202f}z\u{205f}\u{3000}",
        "\u{180e}w\u{180e}", "\u{85}\u{a0}v", "a b", "\u{2028}\u{2029}",
    ];
    for err in samples {
        let expected = if err.trim().is_empty() {
            "iptables exited with s".to_string()
        } else {
            format!("iptables exited with s: {}", err.trim())
        };
        assert_eq!(iptables_failure("s", err), expected, "stderr {:?}", err);
    }
}
