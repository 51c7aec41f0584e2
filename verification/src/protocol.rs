//! The protocol that carries out a firewall change. The library decides every
//! command and the outcome; the caller runs the commands and reports back.

use vstd::prelude::*;

use crate::codes::string_views;
use crate::firewall::{
    CHAIN, FirewallAction, Rule, chain_command, jump_args, output_jump_args, push_arg, rule_args,
    rule_args_spec, with_chain,
};
use crate::text::{decimal, decimal_string, parse_u32, parsed_u32, trim_text, trimmed};

verus! {

/// What the caller must do next.
#[derive(Debug)]
pub enum Step {
    /// Run `iptables` with these arguments and report how it ended.
    Run(Vec<String>),
    /// Determine the current user id and report it.
    QueryUid,
    /// The change is over: the message to show, or the error.
    Finish(Result<String, String>),
}

/// A step as values.
pub enum StepView {
    Run(Seq<Seq<char>>),
    QueryUid,
    Finish(Result<Seq<char>, Seq<char>>),
}

impl View for Step {
    type V = StepView;

    open spec fn view(&self) -> StepView {
        match self {
            Step::Run(args) => StepView::Run(string_views(args@)),
            Step::QueryUid => StepView::QueryUid,
            Step::Finish(Ok(m)) => StepView::Finish(Ok(m@)),
            Step::Finish(Err(e)) => StepView::Finish(Err(e@)),
        }
    }
}

/// What happened when the caller carried out the last step.
#[derive(Debug)]
pub enum Event {
    /// iptables ran; `success` tells whether it exited successfully and
    /// `failure` is the error text to report when it did not.
    Exited { success: bool, failure: String },
    /// iptables could not be started or waited for.
    SpawnFailed(String),
    /// The current user id.
    Uid(u32),
}

/// Where a firewall change stands.
#[derive(Clone, Copy, Debug, PartialEq, Eq, Structural)]
pub enum RunState {
    /// Waiting for `-S CHAIN` (does the chain exist?).
    ApplyCheckChain,
    /// Waiting for `-N CHAIN`.
    ApplyCreateChain,
    /// Waiting for the user id.
    ApplyUid,
    /// Waiting for `-C OUTPUT <jump>` (is the jump there?).
    ApplyCheckJump(u32),
    /// Waiting for `-A OUTPUT <jump>`.
    ApplyAddJump,
    /// Waiting for `-F CHAIN`.
    ApplyFlush,
    /// Waiting for the append of rule `k`.
    ApplyRule(usize),
    /// Waiting for the user id.
    ClearUid,
    /// Waiting for `-D OUTPUT <jump>`.
    ClearDelete(u32),
    /// Waiting for `-F CHAIN`.
    ClearFlush,
    /// Waiting for `-X CHAIN`.
    ClearDestroy,
    /// Finished.
    Done,
}

/// The message after applying `count` rules.
pub open spec fn applied_message(count: nat) -> Seq<char> {
    "Applied "@ + decimal(count) + " current relay blocks in "@ + CHAIN@
}

/// The message after removing the rules.
pub open spec fn removed_message() -> Seq<char> {
    "Removed "@ + CHAIN@ + " jump and chain"@
}

/// Whether an event is the kind of answer the state waits for.
pub open spec fn event_fits(state: RunState, event: Event) -> bool {
    match state {
        RunState::ApplyUid | RunState::ClearUid => event is Uid,
        RunState::Done => false,
        _ => !(event is Uid),
    }
}

/// Whether a state belongs to the protocol of the action.
pub open spec fn state_of(action: FirewallAction, state: RunState) -> bool {
    match action {
        FirewallAction::Apply(plan) => match state {
            RunState::ApplyRule(k) => k < plan@.len(),
            RunState::ClearUid | RunState::ClearDelete(_) | RunState::ClearFlush
            | RunState::ClearDestroy => false,
            _ => true,
        },
        FirewallAction::Clear => match state {
            RunState::ClearUid | RunState::ClearDelete(_) | RunState::ClearFlush
            | RunState::ClearDestroy | RunState::Done => true,
            _ => false,
        },
    }
}

/// The step after flushing the chain or installing rule `k - 1`.
pub open spec fn after_rules(rules: Seq<Rule>, k: nat) -> (RunState, StepView) {
    if k < rules.len() {
        (RunState::ApplyRule(k as usize), StepView::Run(rule_args_spec(rules[k as int])))
    } else {
        (RunState::Done, StepView::Finish(Ok(applied_message(rules.len()))))
    }
}

/// The command that checks for, adds or deletes the jump of a user.
pub open spec fn jump_command(action: Seq<char>, uid: u32) -> Seq<Seq<char>> {
    chain_command(action, "OUTPUT"@, jump_args(decimal(uid as nat)))
}

/// One move of the protocol: from a state and what happened, the next state
/// and step. Applying: make sure the chain exists (create it if `-S` fails),
/// make sure the jump from OUTPUT for the user exists (add it if `-C` fails),
/// flush the chain, append the rules one by one, and report how many. Any
/// required command that fails ends the change with its error. Removing: delete
/// the jump for the user for as long as deletion succeeds, then flush and
/// delete the chain whatever happens, and report success.
pub open spec fn transition(rules: Seq<Rule>, state: RunState, event: Event) -> (RunState, StepView) {
    match event {
        Event::SpawnFailed(e) => match state {
            RunState::ClearFlush => (RunState::ClearDestroy, StepView::Run(seq!["-X"@, CHAIN@])),
            RunState::ClearDestroy => (RunState::Done, StepView::Finish(Ok(removed_message()))),
            _ => (RunState::Done, StepView::Finish(Err(e@))),
        },
        Event::Uid(uid) => match state {
            RunState::ApplyUid => (RunState::ApplyCheckJump(uid), StepView::Run(jump_command("-C"@, uid))),
            _ => (RunState::ClearDelete(uid), StepView::Run(jump_command("-D"@, uid))),
        },
        Event::Exited { success, failure } => match state {
            RunState::ApplyCheckChain => if success {
                (RunState::ApplyUid, StepView::QueryUid)
            } else {
                (RunState::ApplyCreateChain, StepView::Run(seq!["-N"@, CHAIN@]))
            },
            RunState::ApplyCreateChain => if success {
                (RunState::ApplyUid, StepView::QueryUid)
            } else {
                (RunState::Done, StepView::Finish(Err(failure@)))
            },
            RunState::ApplyCheckJump(uid) => if success {
                (RunState::ApplyFlush, StepView::Run(seq!["-F"@, CHAIN@]))
            } else {
                (RunState::ApplyAddJump, StepView::Run(jump_command("-A"@, uid)))
            },
            RunState::ApplyAddJump => if success {
                (RunState::ApplyFlush, StepView::Run(seq!["-F"@, CHAIN@]))
            } else {
                (RunState::Done, StepView::Finish(Err(failure@)))
            },
            RunState::ApplyFlush => if success {
                after_rules(rules, 0)
            } else {
                (RunState::Done, StepView::Finish(Err(failure@)))
            },
            RunState::ApplyRule(k) => if success {
                after_rules(rules, (k + 1) as nat)
            } else {
                (RunState::Done, StepView::Finish(Err(failure@)))
            },
            RunState::ClearDelete(uid) => if success {
                (RunState::ClearDelete(uid), StepView::Run(jump_command("-D"@, uid)))
            } else {
                (RunState::ClearFlush, StepView::Run(seq!["-F"@, CHAIN@]))
            },
            RunState::ClearFlush => (RunState::ClearDestroy, StepView::Run(seq!["-X"@, CHAIN@])),
            _ => (RunState::Done, StepView::Finish(Ok(removed_message()))),
        },
    }
}

/// The rules an action installs (none for removal).
pub open spec fn action_rules(action: FirewallAction) -> Seq<Rule> {
    match action {
        FirewallAction::Apply(plan) => plan@,
        FirewallAction::Clear => Seq::empty(),
    }
}

fn two_args(a: &str, b: &str) -> (v: Vec<String>)
    ensures
        string_views(v@) == seq![a@, b@],
{
    let mut v: Vec<String> = Vec::new();
    push_arg(&mut v, a);
    push_arg(&mut v, b);
    assert(string_views(v@) =~= seq![a@, b@]);
    v
}

fn jump_command_exec(action: &str, uid: u32) -> (v: Vec<String>)
    ensures
        string_views(v@) == jump_command(action@, uid),
{
    let uid_text = decimal_string(uid as u64);
    let jump = output_jump_args(uid_text.as_str());
    with_chain(action, "OUTPUT", &jump)
}

fn applied_message_exec(count: usize) -> (m: String)
    ensures
        m@ == applied_message(count as nat),
{
    let mut m = String::from_str("Applied ");
    crate::text::push_decimal(&mut m, count as u64);
    m.append(" current relay blocks in ");
    m.append(CHAIN);
    m
}

fn removed_message_exec() -> (m: String)
    ensures
        m@ == removed_message(),
{
    let mut m = String::from_str("Removed ");
    m.append(CHAIN);
    m.append(" jump and chain");
    m
}

impl FirewallAction {
    /// The title of the confirmation window.
    pub fn label(&self) -> (s: &'static str)
        ensures
            self is Apply ==> s@ == "Apply iptables rules"@,
            self is Clear ==> s@ == "Remove chooser iptables rules"@,
    {
        match self {
            FirewallAction::Apply(_) => "Apply iptables rules",
            FirewallAction::Clear => "Remove chooser iptables rules",
        }
    }

    /// The first state and step: applying starts by checking for the chain,
    /// removing starts by asking for the user id.
    pub fn start(&self) -> (r: (RunState, Step))
        ensures
            self is Apply ==> r.0 == RunState::ApplyCheckChain && r.1@ == StepView::Run(
                seq!["-S"@, CHAIN@],
            ),
            self is Clear ==> r.0 == RunState::ClearUid && r.1@ == StepView::QueryUid,
            state_of(*self, r.0),
            r.1@ is QueryUid <==> (r.0 is ApplyUid || r.0 is ClearUid),
            r.1@ is Finish <==> r.0 == RunState::Done,
    {
        match self {
            FirewallAction::Apply(_) => (RunState::ApplyCheckChain, Step::Run(two_args("-S", CHAIN))),
            FirewallAction::Clear => (RunState::ClearUid, Step::QueryUid),
        }
    }

    /// The next state and step after `event` in `state` (see `transition`).
    pub fn next_step(&self, state: RunState, event: Event) -> (r: (RunState, Step))
        requires
            state_of(*self, state),
            event_fits(state, event),
        ensures
            (r.0, r.1@) == transition(action_rules(*self), state, event),
            state_of(*self, r.0),
            r.1@ is QueryUid <==> (r.0 is ApplyUid || r.0 is ClearUid),
            r.1@ is Finish <==> r.0 == RunState::Done,
    {
        match event {
            Event::SpawnFailed(e) => match state {
                RunState::ClearFlush => (RunState::ClearDestroy, Step::Run(two_args("-X", CHAIN))),
                RunState::ClearDestroy => (RunState::Done, Step::Finish(Ok(removed_message_exec()))),
                _ => (RunState::Done, Step::Finish(Err(e))),
            },
            Event::Uid(uid) => match state {
                RunState::ApplyUid => (RunState::ApplyCheckJump(uid), Step::Run(jump_command_exec("-C", uid))),
                _ => (RunState::ClearDelete(uid), Step::Run(jump_command_exec("-D", uid))),
            },
            Event::Exited { success, failure } => match state {
                RunState::ApplyCheckChain => if success {
                    (RunState::ApplyUid, Step::QueryUid)
                } else {
                    (RunState::ApplyCreateChain, Step::Run(two_args("-N", CHAIN)))
                },
                RunState::ApplyCreateChain => if success {
                    (RunState::ApplyUid, Step::QueryUid)
                } else {
                    (RunState::Done, Step::Finish(Err(failure)))
                },
                RunState::ApplyCheckJump(uid) => if success {
                    (RunState::ApplyFlush, Step::Run(two_args("-F", CHAIN)))
                } else {
                    (RunState::ApplyAddJump, Step::Run(jump_command_exec("-A", uid)))
                },
                RunState::ApplyAddJump => if success {
                    (RunState::ApplyFlush, Step::Run(two_args("-F", CHAIN)))
                } else {
                    (RunState::Done, Step::Finish(Err(failure)))
                },
                RunState::ApplyFlush => if success {
                    match self {
                        FirewallAction::Apply(plan) => rule_step(plan, 0),
                        // removal never reaches the rule states
                        FirewallAction::Clear => (RunState::Done, Step::QueryUid),
                    }
                } else {
                    (RunState::Done, Step::Finish(Err(failure)))
                },
                RunState::ApplyRule(k) => if success {
                    match self {
                        FirewallAction::Apply(plan) => {
                            let n = plan.rule_count();
                            assert(k < n);
                            rule_step(plan, k + 1)
                        },
                        // removal never reaches the rule states
                        FirewallAction::Clear => (RunState::Done, Step::QueryUid),
                    }
                } else {
                    (RunState::Done, Step::Finish(Err(failure)))
                },
                RunState::ClearDelete(uid) => if success {
                    (RunState::ClearDelete(uid), Step::Run(jump_command_exec("-D", uid)))
                } else {
                    (RunState::ClearFlush, Step::Run(two_args("-F", CHAIN)))
                },
                RunState::ClearFlush => (RunState::ClearDestroy, Step::Run(two_args("-X", CHAIN))),
                _ => (RunState::Done, Step::Finish(Ok(removed_message_exec()))),
            },
        }
    }
}

fn rule_step(plan: &crate::firewall::IptablesPlan, k: usize) -> (r: (RunState, Step))
    requires
        k <= plan@.len(),
    ensures
        (r.0, r.1@) == after_rules(plan@, k as nat),
        r.0 matches RunState::ApplyRule(j) ==> j < plan@.len(),
{
    let rules = plan.rules();
    if k < rules.len() {
        (RunState::ApplyRule(k), Step::Run(rule_args(&rules[k])))
    } else {
        (RunState::Done, Step::Finish(Ok(applied_message_exec(rules.len()))))
    }
}


/// The sudo arguments that run `program args...`: with a password, sudo reads
/// it from standard input without a prompt (`-S -p ""`); without one, sudo must
/// not ask at all (`-n`).
pub open spec fn sudo_args_spec(has_password: bool, program: Seq<char>, args: Seq<Seq<char>>) -> Seq<Seq<char>> {
    if has_password {
        seq!["-S"@, "-p"@, ""@, program] + args
    } else {
        seq!["-n"@, program] + args
    }
}

/// The arguments for `sudo` that run `program args...`.
pub fn sudo_args(has_password: bool, program: &str, args: &Vec<String>) -> (v: Vec<String>)
    ensures
        string_views(v@) == sudo_args_spec(has_password, program@, string_views(args@)),
{
    let mut v: Vec<String> = Vec::new();
    if has_password {
        push_arg(&mut v, "-S");
        push_arg(&mut v, "-p");
        push_arg(&mut v, "");
    } else {
        push_arg(&mut v, "-n");
    }
    push_arg(&mut v, program);
    let ghost head = string_views(v@);
    let n = args.len();
    let mut i: usize = 0;
    while i < n
        invariant
            n == args@.len(),
            i <= n,
            string_views(v@) == head + string_views(args@).take(i as int),
        decreases n - i,
    {
        push_arg(&mut v, args[i].as_str());
        assert(string_views(v@) =~= head + string_views(args@).take(i + 1));
        i = i + 1;
    }
    assert(string_views(args@).take(n as int) =~= string_views(args@));
    proof {
        if has_password {
            assert(head =~= seq!["-S"@, "-p"@, ""@, program@]);
        } else {
            assert(head =~= seq!["-n"@, program@]);
        }
    }
    v
}

/// What sudo reads on standard input: the password and a line end.
pub fn sudo_input(password: &str) -> (s: String)
    ensures
        s@ == password@ + "\n"@,
{
    let mut s = String::from_str(password);
    s.append("\n");
    s
}

/// The error for an iptables run that did not succeed: the exit status and,
/// when there is any, the trimmed error output.
pub open spec fn failure_text(status: Seq<char>, stderr: Seq<char>) -> Seq<char> {
    if trimmed(stderr).len() == 0 {
        "iptables exited with "@ + status
    } else {
        "iptables exited with "@ + status + ": "@ + trimmed(stderr)
    }
}

/// The error text for an iptables run that did not succeed, from the text of
/// its exit status and its error output.
pub fn iptables_failure(status_text: &str, stderr_text: &str) -> (s: String)
    ensures
        s@ == failure_text(status_text@, stderr_text@),
{
    let mut s = String::from_str("iptables exited with ");
    s.append(status_text);
    let t = trim_text(stderr_text);
    if !t.is_empty() {
        s.append(": ");
        s.append(t);
    }
    s
}


/// The user id from the `UID` environment variable, when it is set and reads
/// as a number.
pub fn uid_from_env(value: Option<&str>) -> (r: Option<u32>)
    ensures
        value is None ==> r is None,
        value matches Some(v) ==> r == parsed_u32(v@),
{
    match value {
        None => None,
        Some(v) => parse_u32(v),
    }
}

/// The user id from the output of `id -u` (absent when the command could not
/// run or did not print text): the trimmed output read as a number, else 0.
pub fn uid_from_id_output(output: Option<&str>) -> (uid: u32)
    ensures
        output is None ==> uid == 0,
        output matches Some(o) ==> uid == (match parsed_u32(trimmed(o@)) {
            Some(u) => u,
            None => 0,
        }),
{
    match output {
        None => 0,
        Some(o) => match parse_u32(trim_text(o)) {
            Some(u) => u,
            None => 0,
        },
    }
}


/// The answer when everything goes well: the user id when one is asked for,
/// else a successful exit.
pub open spec fn success_event(state: RunState, uid: u32, failure: String) -> Event {
    match state {
        RunState::ApplyUid | RunState::ClearUid => Event::Uid(uid),
        _ => Event::Exited { success: true, failure },
    }
}

/// The steps of a run in which every command succeeds, for at most `fuel`
/// moves.
pub open spec fn success_run(rules: Seq<Rule>, state: RunState, uid: u32, failure: String, fuel: nat) -> Seq<StepView>
    decreases fuel,
{
    if fuel == 0 || state == RunState::Done {
        Seq::empty()
    } else {
        let next = transition(rules, state, success_event(state, uid, failure));
        seq![next.1] + success_run(rules, next.0, uid, failure, (fuel - 1) as nat)
    }
}

/// The append commands for a list of rules.
pub open spec fn append_steps(rules: Seq<Rule>) -> Seq<StepView> {
    rules.map_values(|r: Rule| StepView::Run(rule_args_spec(r)))
}

proof fn lemma_success_from_rule(rules: Seq<Rule>, k: int, uid: u32, failure: String)
    requires
        0 <= k < rules.len(),
        rules.len() <= usize::MAX,
    ensures
        success_run(rules, RunState::ApplyRule(k as usize), uid, failure, (rules.len() - k) as nat)
            == append_steps(rules.subrange(k + 1, rules.len() as int)) + seq![
            StepView::Finish(Ok(applied_message(rules.len()))),
        ],
    decreases rules.len() - k,
{
    let fuel = (rules.len() - k) as nat;
    let next = transition(rules, RunState::ApplyRule(k as usize), success_event(RunState::ApplyRule(k as usize), uid, failure));
    if k + 1 < rules.len() {
        lemma_success_from_rule(rules, k + 1, uid, failure);
        assert(next == (RunState::ApplyRule((k + 1) as usize), StepView::Run(rule_args_spec(rules[k + 1]))));
        assert(append_steps(rules.subrange(k + 1, rules.len() as int)) =~= seq![
            StepView::Run(rule_args_spec(rules[k + 1])),
        ] + append_steps(rules.subrange(k + 2, rules.len() as int)));
    } else {
        assert(append_steps(rules.subrange(k + 1, rules.len() as int)) =~= Seq::<StepView>::empty());
        assert(success_run(rules, next.0, uid, failure, (fuel - 1) as nat) =~= Seq::<StepView>::empty());
    }
}

/// When every command succeeds, applying a plan (after the first step, which
/// checks for the chain) asks for the user id, checks for the user's jump,
/// flushes the chain, appends one rule per planned block in plan order, and
/// reports how many rules it installed.
pub proof fn lemma_apply_success_run(rules: Seq<Rule>, uid: u32, failure: String)
    requires
        rules.len() <= usize::MAX,
    ensures
        success_run(rules, RunState::ApplyCheckChain, uid, failure, rules.len() + 4) == seq![
            StepView::QueryUid,
            StepView::Run(jump_command("-C"@, uid)),
            StepView::Run(seq!["-F"@, CHAIN@]),
        ] + append_steps(rules) + seq![StepView::Finish(Ok(applied_message(rules.len())))],
{
    let n = rules.len();
    let r1 = success_run(rules, RunState::ApplyCheckJump(uid), uid, failure, (n + 2) as nat);
    let r2 = success_run(rules, RunState::ApplyFlush, uid, failure, (n + 1) as nat);
    if n > 0 {
        lemma_success_from_rule(rules, 0, uid, failure);
        assert(append_steps(rules) =~= seq![StepView::Run(rule_args_spec(rules[0]))] + append_steps(
            rules.subrange(1, n as int),
        ));
        assert(r2 == seq![StepView::Run(rule_args_spec(rules[0]))] + success_run(
            rules,
            RunState::ApplyRule(0),
            uid,
            failure,
            n as nat,
        ));
    } else {
        assert(append_steps(rules) =~= Seq::<StepView>::empty());
        assert(success_run(rules, RunState::Done, uid, failure, n as nat) =~= Seq::<StepView>::empty());
    }
    assert(r1 == seq![StepView::Run(seq!["-F"@, CHAIN@])] + r2);
    assert(success_run(rules, RunState::ApplyUid, uid, failure, (n + 3) as nat) == seq![
        StepView::Run(jump_command("-C"@, uid)),
    ] + r1);
    assert(success_run(rules, RunState::ApplyCheckChain, uid, failure, (n + 4) as nat) =~= seq![
        StepView::QueryUid,
        StepView::Run(jump_command("-C"@, uid)),
        StepView::Run(seq!["-F"@, CHAIN@]),
    ] + append_steps(rules) + seq![StepView::Finish(Ok(applied_message(rules.len())))]);
}

/// A required command of the apply protocol that fails, or any command that
/// cannot be started while applying, ends the change with that error.
pub proof fn lemma_apply_failure_stops(rules: Seq<Rule>, state: RunState, failure: String)
    requires
        state is ApplyCreateChain || state is ApplyAddJump || state is ApplyFlush || state is ApplyRule,
    ensures
        transition(rules, state, Event::Exited { success: false, failure }) == (RunState::Done, StepView::Finish(Err(failure@))),
        transition(rules, state, Event::SpawnFailed(failure)) == (RunState::Done, StepView::Finish(Err(failure@))),
{
}

/// Once deleting the jump fails, removal flushes and deletes the chain and
/// reports success, whatever those two commands answer.
pub proof fn lemma_clear_ends_well(rules: Seq<Rule>, uid: u32, f: String, e1: Event, e2: Event)
    requires
        !(e1 is Uid),
        !(e2 is Uid),
    ensures
        transition(rules, RunState::ClearDelete(uid), Event::Exited { success: false, failure: f }) == (
            RunState::ClearFlush,
            StepView::Run(seq!["-F"@, CHAIN@]),
        ),
        transition(rules, RunState::ClearFlush, e1) == (RunState::ClearDestroy, StepView::Run(seq!["-X"@, CHAIN@])),
        transition(rules, RunState::ClearDestroy, e2) == (RunState::Done, StepView::Finish(Ok(removed_message()))),
{
}


/// The protocol creates the chooser's chain only right after `-S` reported it
/// missing, and adds a user's jump from OUTPUT only right after `-C` reported
/// exactly that jump missing. So applying again to a firewall that still holds
/// the chain and the jump creates nothing and stacks no second jump.
pub proof fn lemma_create_only_when_missing(rules: Seq<Rule>, state: RunState, event: Event, uid: u32)
    ensures
        transition(rules, state, event).1 == StepView::Run(seq!["-N"@, CHAIN@]) ==> (state == RunState::ApplyCheckChain
            && (event matches Event::Exited { success, .. } && !success)),
        transition(rules, state, event).1 == StepView::Run(jump_command("-A"@, uid)) ==> (state
            == RunState::ApplyCheckJump(uid) && (event matches Event::Exited { success, .. } && !success)),
{
    reveal_strlit("-N");
    reveal_strlit("-A");
    reveal_strlit("-C");
    reveal_strlit("-D");
    reveal_strlit("-F");
    reveal_strlit("-X");
    reveal_strlit("OUTPUT");
    reveal_strlit("CS2_SERVER_CHOOSER");
    let step = transition(rules, state, event).1;
    let create = StepView::Run(seq!["-N"@, CHAIN@]);
    let add = StepView::Run(jump_command("-A"@, uid));
    assert("-N"@[1] != "-F"@[1] && "-N"@[1] != "-X"@[1]);
    assert(seq!["-N"@, CHAIN@][0] != "-F"@);
    assert(seq!["-N"@, CHAIN@][0] != "-X"@);
    assert(jump_command("-A"@, uid).len() > 2);
    assert(jump_command("-A"@, uid)[1] == "OUTPUT"@);
    assert("OUTPUT"@ != CHAIN@);
    assert forall|r: Rule| rule_args_spec(r).len() > 2 && rule_args_spec(r)[1] == CHAIN@ by {}
    assert("-C"@[1] != "-A"@[1] && "-D"@[1] != "-A"@[1]);
    assert("-C"@ != "-A"@ && "-D"@ != "-A"@);
    assert forall|u: u32| #[trigger] jump_command("-C"@, u)[0] != "-A"@ && jump_command("-D"@, u)[0] != "-A"@ by {}
    assert forall|u: u32| #[trigger] jump_command("-C"@, u).len() > 2 && jump_command("-D"@, u).len() > 2 by {}
    if step == create || step == add {
        match event {
            Event::SpawnFailed(_) => {},
            Event::Uid(u) => {
                if state == RunState::ApplyUid {
                    assert(jump_command("-C"@, u)[0] != jump_command("-A"@, uid)[0]);
                } else {
                    assert(jump_command("-D"@, u)[0] != jump_command("-A"@, uid)[0]);
                }
            },
            Event::Exited { success, failure } => {
                match state {
                    RunState::ApplyFlush | RunState::ApplyRule(_) => {
                        let k: nat = match state {
                            RunState::ApplyRule(j) => (j + 1) as nat,
                            _ => 0,
                        };
                        if k < rules.len() {
                            assert(rule_args_spec(rules[k as int])[1] != jump_command("-A"@, uid)[1]);
                        }
                    },
                    RunState::ClearDelete(u) => {
                        if success {
                            assert(jump_command("-D"@, u)[0] != jump_command("-A"@, uid)[0]);
                        }
                    },
                    RunState::ApplyCheckJump(u) => {
                        if !success && step == add {
                            assert(jump_command("-A"@, u)[9] == jump_command("-A"@, uid)[9]);
                            crate::text::lemma_decimal_injective(u as nat, uid as nat);
                        }
                    },
                    _ => {},
                }
            },
        }
    }
}

/// Both protocols act on the jump of the user whose id was reported. Applying
/// checks for `u`'s jump and, when it is missing, adds it; removing deletes
/// that very jump (the add command with `-D` in place of `-A`, naming `u` as
/// the owner), and after each successful deletion deletes it again.
pub proof fn lemma_jump_commands_name_the_user(rules: Seq<Rule>, u: u32, f: String)
    ensures
        ({
            let check = transition(rules, RunState::ApplyUid, Event::Uid(u));
            let add = transition(rules, check.0, Event::Exited { success: false, failure: f });
            let del = transition(rules, RunState::ClearUid, Event::Uid(u));
            let again = transition(rules, del.0, Event::Exited { success: true, failure: f });
            &&& check.1 matches StepView::Run(c) && c.len() > 9 && c[0] == "-C"@ && c[1] == "OUTPUT"@ && c[8]
                == "--uid-owner"@ && c[9] == decimal(u as nat)
            &&& add.1 matches StepView::Run(a) && a.len() > 9 && a[0] == "-A"@ && a.drop_first() == (
            match check.1 {
                StepView::Run(c) => c.drop_first(),
                _ => Seq::empty(),
            })
            &&& del.1 matches StepView::Run(d) && d.len() > 9 && d[0] == "-D"@ && d.drop_first() == (match add.1 {
                StepView::Run(a) => a.drop_first(),
                _ => Seq::empty(),
            })
            &&& again == del
        }),
{
    reveal_strlit("--uid-owner");
    let c = jump_command("-C"@, u);
    let a = jump_command("-A"@, u);
    let d = jump_command("-D"@, u);
    assert(c.drop_first() =~= a.drop_first());
    assert(d.drop_first() =~= a.drop_first());
}

/// The command touches only what the chooser owns: the chooser's chain, or the
/// chooser's jump from OUTPUT for some user (checked, added or deleted).
pub open spec fn own_rules_command(args: Seq<Seq<char>>) -> bool {
    ||| args.len() >= 2 && args[1] == CHAIN@
    ||| exists|uid: u32| #![trigger jump_command("-C"@, uid)]
        args == jump_command("-C"@, uid) || args == jump_command("-A"@, uid) || args == jump_command("-D"@, uid)
}

/// Firewall changes are limited to the chooser's chain and its owned OUTPUT
/// jump: every command either protocol issues, at any point, is such a
/// command.
pub proof fn lemma_commands_stay_in_own_chain(rules: Seq<Rule>, state: RunState, event: Event)
    ensures
        own_rules_command(seq!["-S"@, CHAIN@]),
        transition(rules, state, event).1 matches StepView::Run(args) ==> own_rules_command(args),
{
    assert(seq!["-S"@, CHAIN@][1] == CHAIN@);
    let step = transition(rules, state, event).1;
    if let StepView::Run(args) = step {
        match event {
            Event::Uid(uid) => {
                assert(jump_command("-C"@, uid) == jump_command("-C"@, uid));
            },
            Event::Exited { success, failure } => {
                match state {
                    RunState::ApplyCheckJump(uid) => {
                        assert(jump_command("-C"@, uid) == jump_command("-C"@, uid));
                    },
                    RunState::ClearDelete(uid) => {
                        assert(jump_command("-C"@, uid) == jump_command("-C"@, uid));
                    },
                    _ => {},
                }
            },
            _ => {},
        }
    }
}

} // verus!
