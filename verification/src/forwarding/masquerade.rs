//! NAT setup for TUN egress (Linux only): enable IP forwarding and masquerade
//! pool traffic out a physical interface.
//!
//! The work is done by `sysctl` and `iptables`/`ip6tables`; this module says
//! which commands are run, in which order, and what their outcomes mean. The
//! added rules are removed again at the end. Requires the same privileges as
//! TUN creation.

use vstd::prelude::*;

use crate::error::ProxyError;
use crate::net::IpNet;
use crate::text::{net_text, push_net, push_string, push_text, slices, texts};

verus! {

/// One `-A POSTROUTING ...` rule, expressed as arguments so the same list
/// serves `-A` (add), `-C` (check) and `-D` (delete).
#[derive(Debug, Clone, PartialEq, Eq)]
pub struct MasqueradeRule {
    /// `iptables` or `ip6tables`.
    pub command: &'static str,
    pub args: Vec<String>,
}

/// The rule masquerades `pool` out of `interface`.
pub open spec fn masquerades(rule: MasqueradeRule, pool: IpNet, interface: Seq<char>) -> bool {
    &&& rule.command@ == match pool {
        IpNet::V4(_) => "iptables"@,
        IpNet::V6(_) => "ip6tables"@,
    }
    &&& texts(rule.args@) == seq![
        "-t"@,
        "nat"@,
        "POSTROUTING"@,
        "-s"@,
        net_text(pool),
        "-o"@,
        interface,
        "-j"@,
        "MASQUERADE"@,
    ]
}

fn masquerade_rule(pool: &IpNet, interface: &str) -> (rule: MasqueradeRule)
    ensures
        masquerades(rule, *pool, interface@),
{
    let command = match pool {
        IpNet::V4(_) => "iptables",
        IpNet::V6(_) => "ip6tables",
    };
    let mut args: Vec<String> = Vec::new();
    push_text(&mut args, "-t");
    push_text(&mut args, "nat");
    push_text(&mut args, "POSTROUTING");
    push_text(&mut args, "-s");
    let mut p = String::new();
    push_net(&mut p, pool);
    proof {
        assert(p@ =~= net_text(*pool));
    }
    push_string(&mut args, p);
    push_text(&mut args, "-o");
    push_text(&mut args, interface);
    push_text(&mut args, "-j");
    push_text(&mut args, "MASQUERADE");
    proof {
        assert(texts(args@) =~= seq![
            "-t"@,
            "nat"@,
            "POSTROUTING"@,
            "-s"@,
            net_text(*pool),
            "-o"@,
            interface@,
            "-j"@,
            "MASQUERADE"@,
        ]);
    }
    MasqueradeRule { command, args }
}

/// Build the rule set for masquerading `pools` out of `interface`.
pub fn masquerade_rules(pools: &[IpNet], interface: &str) -> (rules: Vec<MasqueradeRule>)
    ensures
        rules@.len() == pools@.len(),
        forall|i: int|
            0 <= i < rules@.len() ==> masquerades(#[trigger] rules@[i], pools@[i], interface@),
{
    let mut rules: Vec<MasqueradeRule> = Vec::new();
    let mut i: usize = 0;
    while i < pools.len()
        invariant
            i <= pools@.len(),
            rules@.len() == i,
            forall|j: int|
                0 <= j < i ==> masquerades(#[trigger] rules@[j], pools@[j], interface@),
        decreases pools@.len() - i,
    {
        rules.push(masquerade_rule(&pools[i], interface));
        i = i + 1;
    }
    rules
}

/// Some pool is of the version.
pub open spec fn any_version(pools: Seq<IpNet>, v4: bool) -> bool {
    exists|i: int| 0 <= i < pools.len() && (#[trigger] pools[i]) is V4 == v4
}

fn has_version(pools: &[IpNet], v4: bool) -> (v: bool)
    ensures
        v == any_version(pools@, v4),
{
    let mut i: usize = 0;
    while i < pools.len()
        invariant
            i <= pools@.len(),
            forall|j: int| 0 <= j < i ==> ((#[trigger] pools@[j]) is V4) != v4,
        decreases pools@.len() - i,
    {
        let is_v4 = match pools[i] {
            IpNet::V4(_) => true,
            IpNet::V6(_) => false,
        };
        if is_v4 == v4 {
            proof {
                assert(pools@[i as int] is V4 == v4);
            }
            return true;
        }
        i = i + 1;
    }
    false
}

/// The sysctl settings that pools of these versions need.
pub open spec fn sysctl_texts(v4: bool, v6: bool) -> Seq<Seq<char>> {
    (if v4 {
        seq!["net.ipv4.ip_forward=1"@]
    } else {
        Seq::empty()
    }) + (if v6 {
        seq!["net.ipv6.conf.all.forwarding=1"@]
    } else {
        Seq::empty()
    })
}

/// sysctl keys that must be 1 for the given pools to route.
pub fn forwarding_sysctls(pools: &[IpNet]) -> (keys: Vec<&'static str>)
    ensures
        slices(keys@) == sysctl_texts(any_version(pools@, true), any_version(pools@, false)),
{
    let mut keys: Vec<&'static str> = Vec::new();
    let v4 = has_version(pools, true);
    let v6 = has_version(pools, false);
    if v4 {
        keys.push("net.ipv4.ip_forward=1");
    }
    if v6 {
        keys.push("net.ipv6.conf.all.forwarding=1");
    }
    proof {
        assert(slices(keys@) =~= sysctl_texts(v4, v6));
    }
    keys
}

/// The arguments with an action before the chain.
pub open spec fn acted(args: Seq<Seq<char>>, action: Seq<char>) -> Seq<Seq<char>> {
    args.take(2).push(action) + args.skip(2)
}

/// The rule args carry the chain at index 2; the action flag goes before it.
pub fn with_action(args: &[String], action: &str) -> (out: Vec<String>)
    requires
        args@.len() >= 2,
    ensures
        texts(out@) == acted(texts(args@), action@),
{
    let mut out: Vec<String> = Vec::new();
    // -t nat
    out.push(args[0].clone());
    out.push(args[1].clone());
    out.push(String::from_str(action));
    // POSTROUTING -s ... -j MASQUERADE
    let mut i: usize = 2;
    proof {
        assert(texts(out@) =~= texts(args@).take(2).push(action@) + texts(args@).subrange(2, 2));
    }
    while i < args.len()
        invariant
            2 <= i <= args@.len(),
            texts(out@) == texts(args@).take(2).push(action@) + texts(args@).subrange(
                2,
                i as int,
            ),
        decreases args@.len() - i,
    {
        push_string(&mut out, args[i].clone());
        i = i + 1;
        proof {
            assert(texts(args@).subrange(2, i as int) =~= texts(args@).subrange(2, i - 1).push(
                args@[i - 1]@,
            ));
            assert(texts(out@) =~= texts(args@).take(2).push(action@) + texts(args@).subrange(
                2,
                i as int,
            ));
        }
    }
    proof {
        assert(texts(args@).subrange(2, args@.len() as int) =~= texts(args@).skip(2));
    }
    out
}

/// How a command went.
#[derive(Debug)]
pub enum Outcome {
    /// It ran and exited with success.
    Success,
    /// It ran and exited with a failure.
    Failure,
    /// It could not be run, for a reason.
    NotRun(String),
}

/// Where the setup stands: it enables forwarding key by key, then installs
/// each rule unless it is there already.
#[derive(Debug, Clone, Copy, PartialEq, Eq, Structural)]
pub enum Stage {
    /// About to set the sysctl key at this index.
    Sysctl(usize),
    /// About to check whether the rule at this index exists.
    Check(usize),
    /// About to add the rule at this index.
    Append(usize),
    /// All rules are installed.
    Done,
}

/// NAT setup in progress.
#[derive(Debug)]
pub struct NatSetup {
    sysctls: Vec<&'static str>,
    rules: Vec<MasqueradeRule>,
    stage: Stage,
}

impl NatSetup {
    pub closed spec fn keys(self) -> Seq<&'static str> {
        self.sysctls@
    }

    pub closed spec fn spec_rules(self) -> Seq<MasqueradeRule> {
        self.rules@
    }

    pub closed spec fn at(self) -> Stage {
        self.stage
    }

    /// The stage points at something, and every rule names its table and
    /// chain.
    pub open spec fn wf(self) -> bool {
        &&& match self.at() {
            Stage::Sysctl(i) => i < self.keys().len(),
            Stage::Check(i) => i < self.spec_rules().len(),
            Stage::Append(i) => i < self.spec_rules().len(),
            Stage::Done => true,
        }
        &&& forall|i: int|
            0 <= i < self.spec_rules().len() ==> (#[trigger] self.spec_rules()[i]).args@.len() >= 2
    }

    /// The stage at which the sysctl key `i` comes next.
    pub open spec fn sysctl_stage(self, i: nat) -> Stage {
        if i < self.keys().len() {
            Stage::Sysctl(i as usize)
        } else {
            self.rule_stage(0)
        }
    }

    /// The stage at which rule `i` comes next.
    pub open spec fn rule_stage(self, i: nat) -> Stage {
        if i < self.spec_rules().len() {
            Stage::Check(i as usize)
        } else {
            Stage::Done
        }
    }

    /// Begin masquerading `pools` out of `interface`.
    pub fn new(pools: &[IpNet], interface: &str) -> (s: Self)
        ensures
            s.wf(),
            slices(s.keys()) == sysctl_texts(
                any_version(pools@, true),
                any_version(pools@, false),
            ),
            s.spec_rules().len() == pools@.len(),
            forall|i: int|
                0 <= i < s.spec_rules().len() ==> masquerades(
                    #[trigger] s.spec_rules()[i],
                    pools@[i],
                    interface@,
                ),
            s.at() == s.sysctl_stage(0),
    {
        let sysctls = forwarding_sysctls(pools);
        let rules = masquerade_rules(pools, interface);
        let stage = if sysctls.len() > 0 {
            Stage::Sysctl(0)
        } else if rules.len() > 0 {
            Stage::Check(0)
        } else {
            Stage::Done
        };
        proof {
            assert forall|i: int| 0 <= i < rules@.len() implies (#[trigger] rules@[i]).args@.len()
                >= 2 by {
                assert(masquerades(rules@[i], pools@[i], interface@));
                assert(texts(rules@[i].args@).len() == 9);
            }
        }
        NatSetup { sysctls, rules, stage }
    }

    /// The command to run next: the program and its arguments. None when the
    /// setup is done.
    pub fn command(&self) -> (c: Option<(&'static str, Vec<String>)>)
        requires
            self.wf(),
        ensures
            match self.at() {
                Stage::Sysctl(i) => c matches Some(p) && p.0@ == "sysctl"@ && texts(p.1@) == seq![
                    "-w"@,
                    self.keys()[i as int]@,
                ],
                Stage::Check(i) => c matches Some(p) && p.0@ == self.spec_rules()[i as int].command@
                    && texts(p.1@) == acted(texts(self.spec_rules()[i as int].args@), "-C"@),
                Stage::Append(i) => c matches Some(p) && p.0@ == self.spec_rules()[i as int].command@
                    && texts(p.1@) == acted(texts(self.spec_rules()[i as int].args@), "-A"@),
                Stage::Done => c is None,
            },
    {
        match self.stage {
            Stage::Sysctl(i) => {
                let mut args: Vec<String> = Vec::new();
                push_text(&mut args, "-w");
                push_text(&mut args, self.sysctls[i]);
                proof {
                    assert(texts(args@) =~= seq!["-w"@, self.keys()[i as int]@]);
                }
                Some(("sysctl", args))
            },
            Stage::Check(i) => Some(
                (
                    self.rules[i].command,
                    with_action(self.rules[i].args.as_slice(), "-C"),
                ),
            ),
            Stage::Append(i) => Some(
                (
                    self.rules[i].command,
                    with_action(self.rules[i].args.as_slice(), "-A"),
                ),
            ),
            Stage::Done => None,
        }
    }

    /// What the outcome of a command makes of the setup.
    pub open spec fn moves(
        self,
        outcome: Outcome,
        after: NatSetup,
        r: Result<(), ProxyError>,
    ) -> bool {
        match (self.at(), outcome) {
            (Stage::Sysctl(i), Outcome::Success) => r is Ok && after.at() == self.sysctl_stage((i + 1) as nat),
            (Stage::Sysctl(i), Outcome::Failure) => says(
                r,
                "sysctl -w "@ + self.keys()[i as int]@ + " failed"@,
            ) && after.at() == self.at(),
            (Stage::Sysctl(i), Outcome::NotRun(e)) => says(
                r,
                "sysctl failed to run: "@ + e@,
            ) && after.at() == self.at(),
            (Stage::Check(i), Outcome::Success) => r is Ok && after.at() == self.rule_stage((i + 1) as nat),
            (Stage::Check(i), _) => r is Ok && after.at() == Stage::Append(i),
            (Stage::Append(i), Outcome::Success) => r is Ok && after.at() == self.rule_stage((i + 1) as nat),
            (Stage::Append(i), Outcome::Failure) => says(
                r,
                self.spec_rules()[i as int].command@ + " -A POSTROUTING rule failed"@,
            ) && after.at() == self.at(),
            (Stage::Append(i), Outcome::NotRun(e)) => says(
                r,
                self.spec_rules()[i as int].command@ + " failed to run: "@ + e@,
            ) && after.at() == self.at(),
            (Stage::Done, _) => r is Ok && after.at() == Stage::Done,
        }
    }

    /// Take in how the command went. A check that does not succeed means that
    /// the rule is not there yet.
    pub fn report(&mut self, outcome: Outcome) -> (r: Result<(), ProxyError>)
        requires
            old(self).wf(),
        ensures
            final(self).wf(),
            final(self).keys() == old(self).keys(),
            final(self).spec_rules() == old(self).spec_rules(),
            old(self).moves(outcome, *final(self), r),
    {
        match self.stage {
            Stage::Sysctl(i) => match outcome {
                Outcome::Success => {
                    self.stage = if self.sysctls.len() - i > 1 {
                        Stage::Sysctl(i + 1)
                    } else if self.rules.len() > 0 {
                        Stage::Check(0)
                    } else {
                        Stage::Done
                    };
                    Ok(())
                },
                Outcome::Failure => {
                    let mut t = String::from_str("sysctl -w ");
                    t.append(self.sysctls[i]);
                    t.append(" failed");
                    Err(ProxyError::Config(t))
                },
                Outcome::NotRun(e) => {
                    let mut t = String::from_str("sysctl failed to run: ");
                    t.append(e.as_str());
                    Err(ProxyError::Config(t))
                },
            },
            Stage::Check(i) => match outcome {
                Outcome::Success => {
                    self.advance(i);
                    Ok(())
                },
                _ => {
                    self.stage = Stage::Append(i);
                    Ok(())
                },
            },
            Stage::Append(i) => match outcome {
                Outcome::Success => {
                    self.advance(i);
                    Ok(())
                },
                Outcome::Failure => {
                    let mut t = String::from_str(self.rules[i].command);
                    t.append(" -A POSTROUTING rule failed");
                    Err(ProxyError::Config(t))
                },
                Outcome::NotRun(e) => {
                    let mut t = String::from_str(self.rules[i].command);
                    t.append(" failed to run: ");
                    t.append(e.as_str());
                    Err(ProxyError::Config(t))
                },
            },
            Stage::Done => Ok(()),
        }
    }

    fn advance(&mut self, i: usize)
        requires
            old(self).wf(),
            i < old(self).spec_rules().len(),
        ensures
            final(self).wf(),
            final(self).keys() == old(self).keys(),
            final(self).spec_rules() == old(self).spec_rules(),
            final(self).at() == old(self).rule_stage((i + 1) as nat),
    {
        self.stage = if self.rules.len() - i > 1 {
            Stage::Check(i + 1)
        } else {
            Stage::Done
        };
    }

    /// What is left to undo once the setup is done.
    pub fn guard(self) -> (g: NatGuard)
        requires
            self.wf(),
        ensures
            g.wf(),
            g.rules@ == self.spec_rules(),
    {
        NatGuard { rules: self.rules }
    }
}

/// The masquerade rules that are installed, to be removed on shutdown.
#[derive(Debug)]
pub struct NatGuard {
    pub rules: Vec<MasqueradeRule>,
}

impl NatGuard {
    /// Every rule names its table and chain.
    pub open spec fn wf(self) -> bool {
        forall|i: int|
            0 <= i < self.rules@.len() ==> (#[trigger] self.rules@[i]).args@.len() >= 2
    }

    /// The commands that remove all rules again.
    pub fn removal(&self) -> (v: Vec<(&'static str, Vec<String>)>)
        requires
            self.wf(),
        ensures
            v@.len() == self.rules@.len(),
            forall|i: int|
                0 <= i < v@.len() ==> (#[trigger] v@[i]).0@ == self.rules@[i].command@
                    && texts(v@[i].1@) == acted(texts(self.rules@[i].args@), "-D"@),
    {
        let mut v: Vec<(&'static str, Vec<String>)> = Vec::new();
        let mut i: usize = 0;
        while i < self.rules.len()
            invariant
                i <= self.rules@.len(),
                self.wf(),
                v@.len() == i,
                forall|j: int|
                    0 <= j < i ==> (#[trigger] v@[j]).0@ == self.rules@[j].command@
                        && texts(v@[j].1@) == acted(texts(self.rules@[j].args@), "-D"@),
            decreases self.rules@.len() - i,
        {
            proof {
                assert(self.rules@[i as int].args@.len() >= 2);
            }
            v.push((self.rules[i].command, with_action(self.rules[i].args.as_slice(), "-D")));
            i = i + 1;
        }
        v
    }
}

/// The result is a configuration error that says `text`.
pub open spec fn says(r: Result<(), ProxyError>, text: Seq<char>) -> bool {
    r matches Err(ProxyError::Config(t)) && t@ == text
}

/// A rule's arguments with an action are the arguments with the action behind
/// the first two.
pub proof fn lemma_acted(args: Seq<Seq<char>>, action: Seq<char>, i: int)
    requires
        args.len() >= 2,
    ensures
        acted(args, action).len() == args.len() + 1,
        acted(args, action)[2] == action,
        0 <= i < 2 ==> acted(args, action)[i] == args[i],
        2 <= i < args.len() ==> acted(args, action)[i + 1] == args[i],
{
}

/// The stages come in order: each key once, then each rule once, then the end.
pub proof fn lemma_stage_order(s: NatSetup, i: nat)
    ensures
        i < s.keys().len() ==> s.sysctl_stage(i) == Stage::Sysctl(i as usize),
        i == s.keys().len() && s.spec_rules().len() > 0 ==> s.sysctl_stage(i) == Stage::Check(0),
        i == s.keys().len() && s.spec_rules().len() == 0 ==> s.sysctl_stage(i) == Stage::Done,
        i < s.spec_rules().len() ==> s.rule_stage(i) == Stage::Check(i as usize),
        i == s.spec_rules().len() ==> s.rule_stage(i) == Stage::Done,
{
}

/// Forwarding is switched on for exactly the families that the pools have.
pub proof fn lemma_families(pools: Seq<IpNet>)
    ensures
        ({
            let keys = sysctl_texts(any_version(pools, true), any_version(pools, false));
            &&& keys.contains("net.ipv4.ip_forward=1"@) <==> exists|i: int|
                0 <= i < pools.len() && (#[trigger] pools[i]) is V4
            &&& keys.contains("net.ipv6.conf.all.forwarding=1"@) <==> exists|i: int|
                0 <= i < pools.len() && (#[trigger] pools[i]) is V6
        }),
{
    let a = "net.ipv4.ip_forward=1"@;
    let b = "net.ipv6.conf.all.forwarding=1"@;
    reveal_strlit("net.ipv4.ip_forward=1");
    reveal_strlit("net.ipv6.conf.all.forwarding=1");
    assert(a.len() != b.len());
    let v4 = any_version(pools, true);
    let v6 = any_version(pools, false);
    let keys = sysctl_texts(v4, v6);
    if v4 {
        assert(keys[0] == a);
    }
    if v6 {
        assert(keys[keys.len() - 1] == b);
    }
}

/// How a setup goes on. A command that succeeds leads to the next key, or from
/// the last key to the first rule, or from a rule to the next, or to the end. A
/// rule that is not there yet is added before that. A key or a rule that cannot
/// be set is an error, and the setup stays where it is.
pub proof fn lemma_moves(
    s: NatSetup,
    outcome: Outcome,
    after: NatSetup,
    r: Result<(), ProxyError>,
    i: usize,
)
    requires
        s.wf(),
        s.moves(outcome, after, r),
        s.keys().len() <= usize::MAX,
        s.spec_rules().len() <= usize::MAX,
    ensures
        r is Err ==> after.at() == s.at(),
        r is Err <==> !(outcome is Success) && (s.at() is Sysctl || s.at() is Append),
        s.at() == Stage::Check(i) && !(outcome is Success) ==> after.at() == Stage::Append(i),
        s.at() == Stage::Sysctl(i) && outcome is Success ==> after.at() == if i + 1
            < s.keys().len() {
            Stage::Sysctl((i + 1) as usize)
        } else if s.spec_rules().len() > 0 {
            Stage::Check(0)
        } else {
            Stage::Done
        },
        (s.at() == Stage::Check(i) || s.at() == Stage::Append(i)) && outcome is Success
            ==> after.at() == if i + 1 < s.spec_rules().len() {
            Stage::Check((i + 1) as usize)
        } else {
            Stage::Done
        },
        s.at() == Stage::Done ==> after.at() == Stage::Done,
{
}

/// A rule masquerades what comes from its pool and leaves by the interface,
/// with the program of the pool's family.
pub proof fn lemma_rule(rule: MasqueradeRule, pool: IpNet, interface: Seq<char>)
    requires
        masquerades(rule, pool, interface),
    ensures
        texts(rule.args@).len() == 9,
        texts(rule.args@)[4] == net_text(pool),
        texts(rule.args@)[6] == interface,
        pool is V4 ==> rule.command@ == "iptables"@,
        pool is V6 ==> rule.command@ == "ip6tables"@,
{
}

} // verus!
