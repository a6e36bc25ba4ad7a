//! What is made of the packets of an NFQUEUE queue.
//!
//! Unlike the capture, which sees copies, a packet is held in the kernel until
//! the verdict is given: a connection is cut before its ClientHello leaves.

use vstd::prelude::*;

use crate::fault::IoFault;
use crate::sniff::capture;
use crate::sniff::reassembly::FlowKey;
use crate::text;

use super::policy;
use super::policy::{Decision, Judged, Outcome, Pending, Policy, Verdict};

verus! {

/// The usual number of the queue, the same as in the rule.
pub const DEFAULT_QUEUE: u16 = 0;

/// Why packets cannot be filtered, or not any more.
#[derive(Debug)]
pub enum FilterError {
    /// The queue cannot be opened.
    Open {
        /// Its number.
        queue: u16,
        /// What the system says.
        source: IoFault,
    },
    /// The queue broke off.
    Queue(IoFault),
}

/// The settings of the filter.
#[derive(Debug, Clone)]
pub struct FilterConfig {
    /// The number of the queue, the same as in the rule.
    pub queue: u16,
    /// Writes a line for each domain decided on.
    pub verbose: bool,
}

impl Default for FilterConfig {
    fn default() -> (r: Self)
        ensures
            r.queue == DEFAULT_QUEUE,
            r.verbose,
    {
        FilterConfig { queue: DEFAULT_QUEUE, verbose: true }
    }
}

/// The command that feeds a queue.
pub open spec fn rule_text(queue: u16, interface: Seq<char>) -> Seq<char> {
    "iptables -I FORWARD -i "@ + interface + " -p tcp --dport 443 -j NFQUEUE --queue-num "@
        + text::decimal(queue as nat)
}

/// The command that feeds a queue.
pub fn iptables_rule(queue: u16, interface: &str) -> (r: String)
    ensures
        r@ == rule_text(queue, interface@),
{
    let mut out = text::copy("iptables -I FORWARD -i ");
    out.append(interface);
    out.append(" -p tcp --dport 443 -j NFQUEUE --queue-num ");
    text::push_decimal(queue as u64, &mut out);
    out
}

/// The line that is written of a decision: where one is wanted, for a packet
/// that named a domain.
pub open spec fn decision_line(verbose: bool, verdict: Verdict, domain: Option<Seq<char>>) -> Option<
    Seq<char>,
> {
    match domain {
        Some(name) => if verbose {
            Some(
                (match verdict {
                    Verdict::Drop => "BLOQUÉ "@,
                    Verdict::Accept => "permis "@,
                }) + name,
            )
        } else {
            None
        },
        None => None,
    }
}

/// The line that is written of a decision.
pub fn verdict_line(cfg: &FilterConfig, decision: &Decision) -> (r: Option<String>)
    ensures
        text::option_view(r) == decision_line(
            cfg.verbose,
            decision.verdict,
            text::option_view(decision.domain),
        ),
{
    match &decision.domain {
        Some(domain) => {
            if !cfg.verbose {
                return None;
            }
            let mut line = match decision.verdict {
                Verdict::Drop => text::copy("BLOQUÉ "),
                Verdict::Accept => text::copy("permis "),
            };
            line.append(domain.as_str());
            Some(line)
        },
        None => None,
    }
}

// ---------------------------------------------------------------------------
// Serving
// ---------------------------------------------------------------------------

/// What happens to the queue.
pub enum Event<'a> {
    /// The kernel holds a packet.
    Packet(&'a [u8]),
    /// The blacklist was asked about a domain.
    Replied {
        /// The domain, and the connection that it is for.
        pending: Pending,
        /// The reply, `None` where there was none.
        reply: Option<bool>,
    },
}

/// What is done next.
pub enum Action {
    /// The blacklist is asked.
    Ask(Pending),
    /// The kernel is told what becomes of the packet that it holds.
    Tell {
        /// What becomes of it.
        verdict: Verdict,
        /// The domain to be noted in the cache, if it is to be.
        seen: Option<String>,
        /// The line to be written, if one is.
        line: Option<String>,
    },
}

/// The kernel is told a decision; a domain is noted where one is given.
pub open spec fn tells(
    action: Action,
    verbose: bool,
    verdict: Verdict,
    domain: Option<Seq<char>>,
    seen: Option<Seq<char>>,
) -> bool {
    &&& action matches Action::Tell { verdict: told, seen: noted, line }
    &&& told == verdict
    &&& text::option_view(noted) == seen
    &&& text::option_view(line) == decision_line(verbose, verdict, domain)
}

/// What is done about a packet, from what the policy says of it.
pub open spec fn acts(action: Action, verbose: bool, outcome: Outcome) -> bool {
    match outcome {
        Outcome::Decided(d) => tells(
            action,
            verbose,
            d.verdict,
            text::option_view(d.domain),
            None,
        ),
        Outcome::Ask(pending) => action == Action::Ask(pending),
    }
}

/// What comes of a packet: what the policy says of it, carried out.
pub open spec fn handles(
    action: Action,
    verbose: bool,
    ip_packet: Seq<u8>,
    blocked: Set<FlowKey>,
    handshakes: Map<FlowKey, Seq<u8>>,
) -> bool {
    exists|outcome: Outcome| #[trigger]
        policy::inspected(outcome, ip_packet, blocked, handshakes) && acts(
            action,
            verbose,
            outcome,
        )
}

/// What comes of a reply of the blacklist on the domain of a connection, and
/// the connections that were cut before and after it.
pub open spec fn concludes(
    action: Action,
    verbose: bool,
    domain: Seq<char>,
    flow: FlowKey,
    reply: Option<bool>,
    records: bool,
    before: Set<FlowKey>,
    after: Set<FlowKey>,
) -> bool {
    if reply == Some(true) {
        &&& tells(action, verbose, Verdict::Drop, Some(domain), None)
        &&& after == policy::blocked_with(before, flow)
    } else {
        &&& tells(
            action,
            verbose,
            Verdict::Accept,
            Some(domain),
            if records {
                Some(domain)
            } else {
                None
            },
        )
        &&& after == before
    }
}

/// Serves the packets of a queue, step by step.
///
/// The kernel holds a packet until it is told what becomes of it: a packet
/// leads to [`Action::Tell`], by way of [`Action::Ask`] where it names a
/// domain.
pub fn filter(cfg: &FilterConfig, policy: &mut Policy, event: Event<'_>) -> (r: Action)
    requires
        old(policy).wf(),
    ensures
        final(policy).wf(),
        final(policy).records() == old(policy).records(),
        match event {
            Event::Packet(ip_packet) => {
                &&& handles(
                    r,
                    cfg.verbose,
                    ip_packet@,
                    old(policy).blocked(),
                    old(policy).pending(),
                )
                &&& policy::follows(
                    ip_packet@,
                    old(policy).blocked(),
                    old(policy).pending(),
                    final(policy).pending(),
                )
                &&& final(policy).blocked() == old(policy).blocked()
            },
            Event::Replied { pending, reply } => {
                &&& final(policy).pending() == old(policy).pending()
                &&& concludes(
                    r,
                    cfg.verbose,
                    pending.domain@,
                    pending.flow,
                    reply,
                    old(policy).records(),
                    old(policy).blocked(),
                    final(policy).blocked(),
                )
            },
        },
{
    match event {
        Event::Packet(ip_packet) => {
            let outcome = policy.inspect(ip_packet);
            let ghost said = outcome;
            let action = match outcome {
                Outcome::Decided(decision) => {
                    let line = verdict_line(cfg, &decision);
                    Action::Tell { verdict: decision.verdict, seen: None, line }
                },
                Outcome::Ask(pending) => Action::Ask(pending),
            };
            assert(acts(action, cfg.verbose, said));
            action
        },
        Event::Replied { pending, reply } => {
            let Judged { decision, seen } = policy.answer(pending, reply);
            let line = verdict_line(cfg, &decision);
            Action::Tell { verdict: decision.verdict, seen, line }
        },
    }
}

// ---------------------------------------------------------------------------
// Laws
// ---------------------------------------------------------------------------

/// Whatever a packet holds, the kernel is told at once what becomes of it, or
/// as soon as the blacklist is asked about the domain that it names; and it is
/// dropped at once only where its connection was cut before.
pub proof fn law_no_packet_is_held_back(
    action: Action,
    verbose: bool,
    ip_packet: Seq<u8>,
    blocked: Set<FlowKey>,
    handshakes: Map<FlowKey, Seq<u8>>,
)
    requires
        handles(action, verbose, ip_packet, blocked, handshakes),
    ensures
        action is Tell || action is Ask,
        action is Ask ==> policy::tcp_segment(ip_packet) is Some,
        action matches Action::Tell { verdict: Verdict::Drop, .. } ==> policy::tcp_segment(
            ip_packet,
        ) is Some && blocked.contains(
            capture::flow_of(policy::tcp_segment(ip_packet).unwrap()),
        ),
{
    let outcome = choose|outcome: Outcome| #[trigger]
        policy::inspected(outcome, ip_packet, blocked, handshakes) && acts(
            action,
            verbose,
            outcome,
        );
    policy::law_only_blocked_flows_are_dropped(outcome, ip_packet, blocked, handshakes);
}

/// The command that feeds a queue names it and the interface: both are read
/// back of it.
pub proof fn law_rule_names_queue_and_interface(queue: u16, interface: Seq<char>)
    requires
        !interface.contains(' '),
    ensures
        ({
            let words = text::pieces(rule_text(queue, interface), ' ');
            &&& words.len() == 13
            &&& words[0] == "iptables"@
            &&& words[4] == interface
            &&& words[8] == "443"@
            &&& words[10] == "NFQUEUE"@
            &&& text::unsigned_value(words[12], u16::MAX as nat) == Some(queue as nat)
        }),
{
    let digits = text::decimal(queue as nat);
    text::lemma_decimal_reads_back(queue as nat, u16::MAX as nat);
    text::lemma_decimal(queue as nat);
    assert(!digits.contains(' ')) by {
        if digits.contains(' ') {
            let i = choose|i: int| 0 <= i < digits.len() && digits[i] == ' ';
            assert(text::is_digit(digits[i]));
        }
    }
    let head = "iptables -I FORWARD -i"@;
    let middle = "-p tcp --dport 443 -j NFQUEUE --queue-num"@;
    lemma_rule_words();
    let behind = middle.push(' ') + digits;
    let from_interface = interface.push(' ') + behind;
    assert(rule_text(queue, interface) =~= head.push(' ') + from_interface) by {
        reveal_strlit("iptables -I FORWARD -i ");
        reveal_strlit(" -p tcp --dport 443 -j NFQUEUE --queue-num ");
        reveal_strlit("iptables -I FORWARD -i");
        reveal_strlit("-p tcp --dport 443 -j NFQUEUE --queue-num");
    }
    text::lemma_pieces_join(head, ' ', from_interface);
    text::lemma_pieces_join(interface, ' ', behind);
    text::lemma_pieces_join(middle, ' ', digits);
    text::lemma_pieces_one(interface, ' ');
    text::lemma_pieces_one(digits, ' ');
}

/// The fixed words of that command.
proof fn lemma_rule_words()
    ensures
        text::pieces("iptables -I FORWARD -i"@, ' ').len() == 4,
        text::pieces("iptables -I FORWARD -i"@, ' ')[0] == "iptables"@,
        text::pieces("-p tcp --dport 443 -j NFQUEUE --queue-num"@, ' ').len() == 7,
        text::pieces("-p tcp --dport 443 -j NFQUEUE --queue-num"@, ' ')[3] == "443"@,
        text::pieces("-p tcp --dport 443 -j NFQUEUE --queue-num"@, ' ')[5] == "NFQUEUE"@,
{
    reveal_strlit("iptables -I FORWARD -i");
    reveal_strlit("iptables");
    reveal_strlit("-I");
    reveal_strlit("FORWARD");
    reveal_strlit("-i");
    let a = seq!["iptables"@, "-I"@, "FORWARD"@, "-i"@];
    assert(a.drop_last() =~= a.take(3));
    assert(a.take(3).drop_last() =~= a.take(2));
    assert(a.take(2).drop_last() =~= a.take(1));
    assert(text::joined(a.take(1), ' ') == a[0]);
    assert(text::joined(a.take(2), ' ') == a[0].push(' ') + a[1]);
    assert(text::joined(a.take(3), ' ') == text::joined(a.take(2), ' ').push(' ') + a[2]);
    assert(text::joined(a, ' ') == text::joined(a.take(3), ' ').push(' ') + a[3]);
    assert(text::joined(a, ' ') =~= "iptables -I FORWARD -i"@);
    text::law_pieces_read_back(a, ' ');
    lemma_more_rule_words();
}

/// The words behind the interface.
proof fn lemma_more_rule_words()
    ensures
        text::pieces("-p tcp --dport 443 -j NFQUEUE --queue-num"@, ' ').len() == 7,
        text::pieces("-p tcp --dport 443 -j NFQUEUE --queue-num"@, ' ')[3] == "443"@,
        text::pieces("-p tcp --dport 443 -j NFQUEUE --queue-num"@, ' ')[5] == "NFQUEUE"@,
{
    reveal_strlit("-p tcp --dport 443 -j NFQUEUE --queue-num");
    reveal_strlit("-p");
    reveal_strlit("tcp");
    reveal_strlit("--dport");
    reveal_strlit("443");
    reveal_strlit("-j");
    reveal_strlit("NFQUEUE");
    reveal_strlit("--queue-num");
    let a = seq!["-p"@, "tcp"@, "--dport"@, "443"@, "-j"@, "NFQUEUE"@, "--queue-num"@];
    assert(a.drop_last() =~= a.take(6));
    assert(a.take(6).drop_last() =~= a.take(5));
    assert(a.take(5).drop_last() =~= a.take(4));
    assert(a.take(4).drop_last() =~= a.take(3));
    assert(a.take(3).drop_last() =~= a.take(2));
    assert(a.take(2).drop_last() =~= a.take(1));
    assert(text::joined(a.take(1), ' ') == a[0]);
    assert(text::joined(a.take(2), ' ') == a[0].push(' ') + a[1]);
    assert(text::joined(a.take(3), ' ') == text::joined(a.take(2), ' ').push(' ') + a[2]);
    assert(text::joined(a.take(4), ' ') == text::joined(a.take(3), ' ').push(' ') + a[3]);
    assert(text::joined(a.take(5), ' ') == text::joined(a.take(4), ' ').push(' ') + a[4]);
    assert(text::joined(a.take(6), ' ') == text::joined(a.take(5), ' ').push(' ') + a[5]);
    assert(text::joined(a, ' ') == text::joined(a.take(6), ' ').push(' ') + a[6]);
    assert(text::joined(a, ' ') =~= "-p tcp --dport 443 -j NFQUEUE --queue-num"@);
    text::law_pieces_read_back(a, ' ');
}

/// The line on a decision tells the domain behind a word for the verdict, and
/// there is one exactly where it is wanted and a domain was named.
pub proof fn law_line_tells_verdict_and_domain(verbose: bool, verdict: Verdict, domain: Seq<char>)
    ensures
        decision_line(verbose, verdict, None) is None,
        decision_line(false, verdict, Some(domain)) is None,
        decision_line(true, Verdict::Drop, Some(domain)) matches Some(line) && line.take(6)
            == "BLOQUÉ"@ && line.skip(7) == domain,
        decision_line(true, Verdict::Accept, Some(domain)) matches Some(line) && line.take(6)
            == "permis"@ && line.skip(7) == domain,
{
    reveal_strlit("BLOQUÉ ");
    reveal_strlit("permis ");
    reveal_strlit("BLOQUÉ");
    reveal_strlit("permis");
    let a = "BLOQUÉ "@ + domain;
    let b = "permis "@ + domain;
    assert(a.take(6) =~= "BLOQUÉ"@ && a.skip(7) =~= domain);
    assert(b.take(6) =~= "permis"@ && b.skip(7) =~= domain);
}

/// The kernel is told to drop the packet exactly where the blacklist says that
/// its domain is on it, and the connection is remembered as cut; otherwise it
/// passes, and the domain is noted where that is wanted. Either is written with
/// the domain, where lines are wanted.
pub proof fn law_kernel_is_told_what_the_blacklist_says(
    action: Action,
    verbose: bool,
    domain: Seq<char>,
    flow: FlowKey,
    reply: Option<bool>,
    records: bool,
    before: Set<FlowKey>,
    after: Set<FlowKey>,
)
    requires
        concludes(action, verbose, domain, flow, reply, records, before, after),
    ensures
        action matches Action::Tell { verdict, seen, line } && {
            &&& verdict == Verdict::Drop <==> reply == Some(true)
            &&& line is Some <==> verbose
            &&& line matches Some(said) ==> said@.skip(7) == domain
            &&& seen is Some <==> reply != Some(true) && records
            &&& seen matches Some(noted) ==> noted@ == domain
        },
        after.contains(flow) || reply != Some(true),
        reply != Some(true) ==> after == before,
{
    law_line_tells_verdict_and_domain(verbose, Verdict::Drop, domain);
}

} // verus!
