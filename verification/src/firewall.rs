//! Planning the firewall change: which relays to block, the iptables commands
//! that apply or remove the rules, and the protocol that runs them.

use vstd::prelude::*;

use crate::codes::{CodeSet, string_views};
use crate::text::{decimal, push_decimal};
use crate::data::{
    Pop, Relay, LoadedConfig, allowed_code_set, allowed_codes, codes_distinct, has_relays, is_allowed,
};

verus! {

/// The iptables chain that holds the chooser's rules.
pub const CHAIN: &'static str = "CS2_SERVER_CHOOSER";

/// The comment that marks the chooser's jump from the OUTPUT chain.
pub const COMMENT: &'static str = "cs2-server-chooser owned jump";

/// The comment on every block rule.
pub const RULE_COMMENT: &'static str = "cs2-server-chooser blocked relay";

/// One block rule: reject UDP to a relay address on a port range.
#[derive(Clone, Copy, Debug)]
pub struct Rule {
    pub relay: [u8; 4],
    pub start_port: u16,
    pub end_port: u16,
}

/// The rule that blocks a relay.
pub open spec fn relay_rule(r: Relay) -> Rule {
    Rule { relay: r.ipv4, start_port: r.port_range[0], end_port: r.port_range[1] }
}

/// The rules for all relays of a POP, in order.
pub open spec fn pop_rules(p: Pop) -> Seq<Rule> {
    p.relays@.map_values(|r: Relay| relay_rule(r))
}

/// The rules for the relays of every POP whose code is not in `selected`, in
/// POP order and relay order.
pub open spec fn blocked_rules(pops: Seq<Pop>, selected: Set<Seq<char>>) -> Seq<Rule>
    decreases pops.len(),
{
    if pops.len() == 0 {
        Seq::empty()
    } else if selected.contains(pops.last().code@) {
        blocked_rules(pops.drop_last(), selected)
    } else {
        blocked_rules(pops.drop_last(), selected) + pop_rules(pops.last())
    }
}

/// The rules for the relays of every POP that is not selected.
pub open spec fn unselected_rules(pops: Seq<Pop>) -> Seq<Rule>
    decreases pops.len(),
{
    if pops.len() == 0 {
        Seq::empty()
    } else if pops.last().selected {
        unselected_rules(pops.drop_last())
    } else {
        unselected_rules(pops.drop_last()) + pop_rules(pops.last())
    }
}

/// The set of block rules to install.
#[derive(Clone, Debug)]
pub struct IptablesPlan {
    rules: Vec<Rule>,
}

impl View for IptablesPlan {
    type V = Seq<Rule>;

    closed spec fn view(&self) -> Seq<Rule> {
        self.rules@
    }
}

impl IptablesPlan {
    /// The plan that blocks every relay of every POP whose code is not in
    /// `selected`.
    pub fn from_config(config: &LoadedConfig, selected: &CodeSet) -> (plan: IptablesPlan)
        ensures
            plan@ == blocked_rules(config.pops@, selected.set()),
    {
        let n = config.pops.len();
        let mut rules: Vec<Rule> = Vec::new();
        let mut i: usize = 0;
        while i < n
            invariant
                n == config.pops@.len(),
                i <= n,
                rules@ == blocked_rules(config.pops@.take(i as int), selected.set()),
            decreases n - i,
        {
            proof {
                assert(config.pops@.take(i + 1).drop_last() =~= config.pops@.take(i as int));
            }
            let pop = &config.pops[i];
            if !selected.contains(pop.code.as_str()) {
                let ghost before = rules@;
                let m = pop.relays.len();
                let mut j: usize = 0;
                while j < m
                    invariant
                        m == pop.relays@.len(),
                        j <= m,
                        rules@ == before + pop_rules(*pop).take(j as int),
                    decreases m - j,
                {
                    let relay = pop.relays[j];
                    rules.push(Rule {
                        relay: relay.ipv4,
                        start_port: relay.port_range[0],
                        end_port: relay.port_range[1],
                    });
                    assert(rules@ =~= before + pop_rules(*pop).take(j + 1));
                    j = j + 1;
                }
                assert(pop_rules(*pop).take(m as int) =~= pop_rules(*pop));
            }
            i = i + 1;
        }
        assert(config.pops@.take(n as int) =~= config.pops@);
        IptablesPlan { rules }
    }

    /// The rules, in the order they are installed.
    pub fn rules(&self) -> (r: &Vec<Rule>)
        ensures
            r@ == self@,
    {
        &self.rules
    }

    /// Number of rules.
    pub fn rule_count(&self) -> (n: usize)
        ensures
            n == self@.len(),
    {
        self.rules.len()
    }
}

/// A pending firewall change.
#[derive(Clone, Debug)]
pub enum FirewallAction {
    Apply(IptablesPlan),
    Clear,
}

/// Why applying the rules is refused, or `None` when the plan can be made.
pub open spec fn apply_refusal(config: Option<&LoadedConfig>) -> Option<Seq<char>> {
    match config {
        None => Some("No relay data loaded"@),
        Some(c) => if !c.live {
            Some("Refusing to apply iptables from cached data; refresh live Valve SDR data first"@)
        } else if allowed_code_set(c.pops@).len() == 0 {
            Some("Allow at least one relay POP before applying iptables"@)
        } else {
            None
        },
    }
}

/// Prepares the "apply rules" action: refused without data, from cached data,
/// or when no POP is allowed; otherwise the plan blocks the relays of every POP
/// whose code is not among the allowed codes.
pub fn prepare_apply_firewall(config: Option<&LoadedConfig>) -> (r: Result<FirewallAction, String>)
    ensures
        apply_refusal(config) matches Some(msg) ==> (r matches Err(e) && e@ == msg),
        apply_refusal(config) is None ==> (r matches Ok(FirewallAction::Apply(plan)) && plan@
            == blocked_rules(config.unwrap().pops@, allowed_code_set(config.unwrap().pops@))),
{
    let config = match config {
        None => {
            return Err(String::from_str("No relay data loaded"));
        },
        Some(c) => c,
    };
    if !config.live {
        return Err(
            String::from_str(
                "Refusing to apply iptables from cached data; refresh live Valve SDR data first",
            ),
        );
    }
    let selected = allowed_codes(config);
    if selected.is_empty() {
        proof {
            assert(selected@.to_set().len() == 0) by {
                assert(selected@.to_set() =~= Set::empty());
            }
        }
        return Err(String::from_str("Allow at least one relay POP before applying iptables"));
    }
    proof {
        assert(selected@.to_set().contains(selected@[0]));
        assert(selected@.to_set().len() != 0);
    }
    Ok(FirewallAction::Apply(IptablesPlan::from_config(config, &selected)))
}

proof fn lemma_nothing_blocked(pops: Seq<Pop>, selected: Set<Seq<char>>)
    requires
        forall|k: int| 0 <= k < pops.len() && pops[k].relays@.len() > 0 ==> selected.contains(#[trigger] pops[k].code@),
    ensures
        blocked_rules(pops, selected).len() == 0,
    decreases pops.len(),
{
    if pops.len() > 0 {
        let init = pops.drop_last();
        assert forall|k: int| 0 <= k < init.len() && init[k].relays@.len() > 0 implies selected.contains(
            #[trigger] init[k].code@,
        ) by {
            assert(init[k] == pops[k]);
        }
        lemma_nothing_blocked(init, selected);
        let last = pops.last();
        assert(pops[pops.len() - 1] == last);
        if !selected.contains(last.code@) {
            assert(pop_rules(last).len() == 0);
        }
    }
}

/// Applying is refused only without data, from cached data, or when no POP
/// is allowed: a live configuration in which some POP with relays is selected
/// always gets a plan; and when every POP with relays is selected, that plan
/// blocks nothing.
pub proof fn lemma_apply_not_refused_with_an_allowed_pop(c: LoadedConfig, i: int)
    requires
        0 <= i < c.pops@.len(),
        c.live,
        c.pops@[i].selected,
        c.pops@[i].relays@.len() > 0,
    ensures
        apply_refusal(Some(&c)) is None,
        (forall|k: int| 0 <= k < c.pops@.len() && c.pops@[k].relays@.len() > 0 ==> #[trigger] c.pops@[k].selected)
            ==> blocked_rules(c.pops@, allowed_code_set(c.pops@)).len() == 0,
{
    let pops = c.pops@;
    let allowed = allowed_code_set(pops);
    let codes = pops.map_values(|p: Pop| p.code@).to_set();
    assert(allowed.subset_of(codes)) by {
        assert forall|x: Seq<char>| allowed.contains(x) implies codes.contains(x) by {
            let k = choose|k: int| 0 <= k < pops.len() && is_allowed(pops[k]) && pops[k].code@ == x;
            assert(pops.map_values(|p: Pop| p.code@)[k] == x);
        }
    }
    vstd::seq_lib::seq_to_set_is_finite(pops.map_values(|p: Pop| p.code@));
    vstd::set_lib::lemma_set_subset_finite(codes, allowed);
    assert(allowed.contains(pops[i].code@));
    vstd::set_lib::lemma_set_empty_equivalency_len(allowed);
    if forall|k: int| 0 <= k < pops.len() && pops[k].relays@.len() > 0 ==> #[trigger] pops[k].selected {
        assert forall|k: int| 0 <= k < pops.len() && pops[k].relays@.len() > 0 implies allowed.contains(
            #[trigger] pops[k].code@,
        ) by {
            assert(pops[k].selected);
            assert(is_allowed(pops[k]));
        }
        lemma_nothing_blocked(pops, allowed);
    }
}

/// Applying is refused without data, from cached data, and when no POP with
/// relays is selected.
pub proof fn lemma_apply_refused_without_live_selection(c: LoadedConfig)
    ensures
        apply_refusal(None) is Some,
        !c.live ==> apply_refusal(Some(&c)) is Some,
        (forall|k: int| 0 <= k < c.pops@.len() ==> !(#[trigger] c.pops@[k].selected && c.pops@[k].relays@.len() > 0))
            ==> apply_refusal(Some(&c)) is Some,
{
    if forall|k: int| 0 <= k < c.pops@.len() ==> !(#[trigger] c.pops@[k].selected && c.pops@[k].relays@.len() > 0) {
        assert(allowed_code_set(c.pops@) =~= Set::empty());
    }
}

/// With distinct POP codes, the plan made from the allowed codes blocks exactly
/// the relays of the POPs that are not selected: checked POPs are allowed,
/// unchecked POPs are blocked.
pub proof fn lemma_plan_blocks_unselected(pops: Seq<Pop>)
    requires
        codes_distinct(pops),
    ensures
        blocked_rules(pops, allowed_code_set(pops)) == unselected_rules(pops),
    decreases pops.len(),
{
    if pops.len() > 0 {
        let init = pops.drop_last();
        assert(codes_distinct(init)) by {
            assert forall|i: int, j: int| 0 <= i < j < init.len() implies (#[trigger] init[i]).code@
                != (#[trigger] init[j]).code@ by {
                assert(init[i] == pops[i] && init[j] == pops[j]);
            }
        }
        lemma_plan_blocks_unselected(init);
        lemma_blocked_rules_ext(init, allowed_code_set(pops), allowed_code_set(init));
        let last = pops.last();
        if allowed_code_set(pops).contains(last.code@) {
            let k = choose|k: int| 0 <= k < pops.len() && is_allowed(pops[k]) && pops[k].code@ == last.code@;
            if k < pops.len() - 1 {
                assert(pops[k].code@ != pops[pops.len() - 1].code@);
            }
        } else if last.selected {
            assert(!has_relays(last)) by {
                if has_relays(last) {
                    assert(is_allowed(pops[pops.len() - 1]));
                }
            }
            assert(pop_rules(last) =~= Seq::<Rule>::empty());
            assert(blocked_rules(init, allowed_code_set(init)) + pop_rules(last) =~= blocked_rules(
                init,
                allowed_code_set(init),
            ));
        }
    }
}

/// The rules blocked for the earlier POPs depend only on which of their codes
/// are selected.
proof fn lemma_blocked_rules_ext(pops: Seq<Pop>, a: Set<Seq<char>>, b: Set<Seq<char>>)
    requires
        forall|i: int| 0 <= i < pops.len() ==> (a.contains(#[trigger] pops[i].code@) == b.contains(
            pops[i].code@,
        )),
    ensures
        blocked_rules(pops, a) == blocked_rules(pops, b),
    decreases pops.len(),
{
    if pops.len() > 0 {
        let init = pops.drop_last();
        assert forall|i: int| 0 <= i < init.len() implies (a.contains(#[trigger] init[i].code@)
            == b.contains(init[i].code@)) by {
            assert(init[i] == pops[i]);
        }
        lemma_blocked_rules_ext(init, a, b);
        assert(pops.last() == pops[pops.len() - 1]);
    }
}


/// Appends an owned copy of `s` to a list of arguments.
pub fn push_arg(v: &mut Vec<String>, s: &str)
    ensures
        string_views(final(v)@) == string_views(old(v)@).push(s@),
{
    let ghost before = v@;
    v.push(String::from_str(s));
    proof {
        before.lemma_push_map_commute(|x: String| x@, v@.last());
    }
}

/// The arguments that match the chooser's jump from OUTPUT for a user id.
pub open spec fn jump_args(uid_text: Seq<char>) -> Seq<Seq<char>> {
    seq![
        "-p"@,
        "udp"@,
        "-m"@,
        "udp"@,
        "-m"@,
        "owner"@,
        "--uid-owner"@,
        uid_text,
        "-m"@,
        "comment"@,
        "--comment"@,
        COMMENT@,
        "-j"@,
        CHAIN@,
    ]
}

/// The iptables arguments that select UDP traffic of the given user and send
/// it to the chooser's chain.
pub fn output_jump_args(uid_text: &str) -> (v: Vec<String>)
    ensures
        string_views(v@) == jump_args(uid_text@),
{
    let mut v: Vec<String> = Vec::new();
    push_arg(&mut v, "-p");
    push_arg(&mut v, "udp");
    push_arg(&mut v, "-m");
    push_arg(&mut v, "udp");
    push_arg(&mut v, "-m");
    push_arg(&mut v, "owner");
    push_arg(&mut v, "--uid-owner");
    push_arg(&mut v, uid_text);
    push_arg(&mut v, "-m");
    push_arg(&mut v, "comment");
    push_arg(&mut v, "--comment");
    push_arg(&mut v, COMMENT);
    push_arg(&mut v, "-j");
    push_arg(&mut v, CHAIN);
    assert(string_views(v@) =~= jump_args(uid_text@));
    v
}

/// `action chain args...`: an iptables command on a named chain.
pub open spec fn chain_command(action: Seq<char>, chain: Seq<char>, args: Seq<Seq<char>>) -> Seq<Seq<char>> {
    seq![action, chain] + args
}

/// The arguments `action chain args...`.
pub fn with_chain(action: &str, chain: &str, args: &Vec<String>) -> (v: Vec<String>)
    ensures
        string_views(v@) == chain_command(action@, chain@, string_views(args@)),
{
    let mut v: Vec<String> = Vec::new();
    push_arg(&mut v, action);
    push_arg(&mut v, chain);
    let n = args.len();
    let mut i: usize = 0;
    while i < n
        invariant
            n == args@.len(),
            i <= n,
            string_views(v@) == seq![action@, chain@] + string_views(args@).take(i as int),
        decreases n - i,
    {
        push_arg(&mut v, args[i].as_str());
        assert(string_views(v@) =~= seq![action@, chain@] + string_views(args@).take(i + 1));
        i = i + 1;
    }
    assert(string_views(args@).take(n as int) =~= string_views(args@));
    v
}

/// Dotted-decimal text of an IPv4 address.
pub open spec fn ipv4_text_spec(o: [u8; 4]) -> Seq<char> {
    decimal(o[0] as nat) + "."@ + decimal(o[1] as nat) + "."@ + decimal(o[2] as nat) + "."@ + decimal(
        o[3] as nat,
    )
}

/// The dotted-decimal text of an IPv4 address (as `Ipv4Addr` displays it).
pub fn ipv4_text(o: [u8; 4]) -> (s: String)
    ensures
        s@ == ipv4_text_spec(o),
{
    let mut s = String::new();
    push_decimal(&mut s, o[0] as u64);
    s.append(".");
    push_decimal(&mut s, o[1] as u64);
    s.append(".");
    push_decimal(&mut s, o[2] as u64);
    s.append(".");
    push_decimal(&mut s, o[3] as u64);
    assert(s@ =~= ipv4_text_spec(o));
    s
}

/// `start:end` for a port range.
pub open spec fn port_range_spec(start: u16, end: u16) -> Seq<char> {
    decimal(start as nat) + ":"@ + decimal(end as nat)
}

/// The arguments that append one block rule to the chooser's chain.
pub open spec fn rule_args_spec(r: Rule) -> Seq<Seq<char>> {
    seq![
        "-A"@,
        CHAIN@,
        "-p"@,
        "udp"@,
        "-m"@,
        "udp"@,
        "-d"@,
        ipv4_text_spec(r.relay),
        "--dport"@,
        port_range_spec(r.start_port, r.end_port),
        "-m"@,
        "comment"@,
        "--comment"@,
        RULE_COMMENT@,
        "-j"@,
        "REJECT"@,
    ]
}

/// The iptables arguments that append the rule rejecting UDP to the relay on
/// its port range.
pub fn rule_args(r: &Rule) -> (v: Vec<String>)
    ensures
        string_views(v@) == rule_args_spec(*r),
{
    let dest = ipv4_text(r.relay);
    let mut ports = String::new();
    push_decimal(&mut ports, r.start_port as u64);
    ports.append(":");
    push_decimal(&mut ports, r.end_port as u64);
    assert(ports@ =~= port_range_spec(r.start_port, r.end_port));
    let mut v: Vec<String> = Vec::new();
    push_arg(&mut v, "-A");
    push_arg(&mut v, CHAIN);
    push_arg(&mut v, "-p");
    push_arg(&mut v, "udp");
    push_arg(&mut v, "-m");
    push_arg(&mut v, "udp");
    push_arg(&mut v, "-d");
    push_arg(&mut v, dest.as_str());
    push_arg(&mut v, "--dport");
    push_arg(&mut v, ports.as_str());
    push_arg(&mut v, "-m");
    push_arg(&mut v, "comment");
    push_arg(&mut v, "--comment");
    push_arg(&mut v, RULE_COMMENT);
    push_arg(&mut v, "-j");
    push_arg(&mut v, "REJECT");
    assert(string_views(v@) =~= rule_args_spec(*r));
    v
}

} // verus!
