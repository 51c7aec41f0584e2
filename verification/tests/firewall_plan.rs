use cs2_server_chooser::codes::CodeSet;
use cs2_server_chooser::data::{LoadedConfig, Pop, Relay, allowed_codes};
use cs2_server_chooser::firewall::{
    CHAIN, FirewallAction, IptablesPlan, Rule, ipv4_text, output_jump_args, prepare_apply_firewall,
    rule_args, with_chain,
};

fn pop(code: &str, relays: Vec<Relay>, selected: bool) -> Pop {
    Pop {
        code: code.to_string(),
        desc: code.to_uppercase(),
        lon_bits: 0,
        lat_bits: 0,
        tier: 0,
        relays,
        selected,
    }
}

fn config(live: bool, pops: Vec<Pop>) -> LoadedConfig {
    LoadedConfig { revision: 1, source: "x".to_string(), live, pops }
}

fn r(a: u8, s: u16, e: u16) -> Relay {
    Relay { ipv4: [192, 168, 0, a], port_range: [s, e] }
}

fn ports(rules: &[Rule]) -> Vec<(u8, u16, u16)> {
    rules.iter().map(|x| (x.relay[3], x.start_port, x.end_port)).collect()
}

#[test]
fn plan_blocks_relays_of_pops_not_selected() {
    let c = config(true, vec![
        pop("a", vec![r(1, 10, 20), r(2, 30, 40)], true),
        pop("b", vec![r(3, 50, 60)], false),
        pop("c", vec![r(4, 70, 80), r(5, 90, 99)], false),
    ]);
    let selected = CodeSet::from_codes(vec!["a".to_string()]);
    let plan = IptablesPlan::from_config(&c, &selected);
    assert_eq!(ports(plan.rules()), vec![(3, 50, 60), (4, 70, 80), (5, 90, 99)]);
    assert_eq!(plan.rule_count(), 3);
}

#[test]
fn checked_pops_allowed_unchecked_blocked() {
    let c = config(true, vec![
        pop("a", vec![r(1, 1, 2)], true),
        pop("b", vec![r(2, 3, 4)], false),
        pop("e", vec![], true),
    ]);
    match prepare_apply_firewall(Some(&c)) {
        Ok(FirewallAction::Apply(plan)) => assert_eq!(ports(plan.rules()), vec![(2, 3, 4)]),
        _ => panic!("expected a plan"),
    }
    let from_codes = IptablesPlan::from_config(&c, &allowed_codes(&c));
    assert_eq!(ports(from_codes.rules()), vec![(2, 3, 4)]);
}

#[test]
fn apply_refusals() {
    match prepare_apply_firewall(None) {
        Err(e) => assert_eq!(e, "No relay data loaded"),
        _ => panic!(),
    }
    let cached = config(false, vec![pop("a", vec![r(1, 1, 2)], true)]);
    match prepare_apply_firewall(Some(&cached)) {
        Err(e) => assert_eq!(
            e,
            "Refusing to apply iptables from cached data; refresh live Valve SDR data first"
        ),
        _ => panic!(),
    }
    let none_allowed = config(true, vec![pop("a", vec![r(1, 1, 2)], false), pop("b", vec![], true)]);
    match prepare_apply_firewall(Some(&none_allowed)) {
        Err(e) => assert_eq!(e, "Allow at least one relay POP before applying iptables"),
        _ => panic!(),
    }
}

#[test]
fn rule_arguments() {
    let rule = Rule { relay: [155, 133, 226, 7], start_port: 27015, end_port: 27060 };
    let args = rule_args(&rule);
    assert_eq!(
        args,
        vec![
            "-A", CHAIN, "-p", "udp", "-m", "udp", "-d", "155.133.226.7", "--dport", "27015:27060",
            "-m", "comment", "--comment", "cs2-server-chooser blocked relay", "-j", "REJECT",
        ]
    );
    assert_eq!(ipv4_text([0, 0, 0, 0]), "0.0.0.0");
    assert_eq!(ipv4_text([255, 10, 100, 9]), "255.10.100.9");
}

#[test]
fn jump_arguments() {
    let jump = output_jump_args("1000");
    assert_eq!(
        jump,
        vec![
            "-p", "udp", "-m", "udp", "-m", "owner", "--uid-owner", "1000", "-m", "comment",
            "--comment", "cs2-server-chooser owned jump", "-j", "CS2_SERVER_CHOOSER",
        ]
    );
    let cmd = with_chain("-C", "OUTPUT", &jump);
    assert_eq!(cmd.len(), 16);
    assert_eq!(cmd[0], "-C");
    assert_eq!(cmd[1], "OUTPUT");
    assert_eq!(cmd[2], "-p");
}

#[test]
fn labels() {
    assert_eq!(FirewallAction::Clear.label(), "Remove chooser iptables rules");
    let plan = IptablesPlan::from_config(&config(true, vec![]), &CodeSet::new());
    assert_eq!(FirewallAction::Apply(plan).label(), "Apply iptables rules");
}
