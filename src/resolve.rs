//! Iterative resolution as a state machine: the caller sends each query and
//! hands back the decoded reply; the resolver decides what to ask next.
use vstd::prelude::*;
use crate::packet::{first_of_type, DNSPacket, PacketView};
use crate::record::{DNSRecordResult, IpAddress, RecordResultView};
use crate::{TYPE_A, TYPE_NS};

verus! {

/// How many replies one resolution may take before it gives up.
pub const MAX_HOPS: u32 = 64;

/// Why a resolution failed.
#[derive(Debug, Clone, Copy, PartialEq, Eq, Structural)]
pub enum ResolveError {
    /// A reply held no answer, no glue address and no nameserver name.
    NoProgress,
    /// The delegation chain ran longer than the hop limit.
    TooManyHops,
}

/// What the resolver does after a reply.
#[derive(Debug, Clone, Copy, PartialEq, Eq)]
pub enum Step {
    /// Send the next query (see `Resolver::current_name` and `nameserver`).
    Continue,
    /// The target's address was found.
    Done(IpAddress),
    /// The resolution failed.
    Failed(ResolveError),
}

/// What a step gives.
pub enum StepView {
    Continue,
    Done(Seq<u8>),
    Failed(ResolveError),
}

impl View for Step {
    type V = StepView;

    open spec fn view(&self) -> StepView {
        match self {
            Step::Continue => StepView::Continue,
            Step::Done(a) => StepView::Done(a@),
            Step::Failed(e) => StepView::Failed(*e),
        }
    }
}

/// The state of one resolution: the nameserver to ask next, the stack of
/// names being resolved (the target at the bottom, the name to ask for on
/// top), the record type asked for, and the replies handled so far.
pub struct Resolver {
    pub nameserver: IpAddress,
    pub pending: Vec<String>,
    pub record_type: u16,
    pub hops: u32,
}

/// What a resolver's state holds.
pub struct ResolverView {
    pub nameserver: Seq<u8>,
    pub pending: Seq<Seq<char>>,
    pub record_type: u16,
    pub hops: nat,
}

impl View for Resolver {
    type V = ResolverView;

    open spec fn view(&self) -> ResolverView {
        ResolverView {
            nameserver: self.nameserver@,
            pending: self.pending@.map_values(|s: String| s@),
            record_type: self.record_type,
            hops: self.hops as nat,
        }
    }
}

/// The octets of the first root server, a.root-servers.net.
pub open spec fn root_octets() -> Seq<u8> {
    seq![198u8, 41u8, 0u8, 4u8]
}

/// The delegation rule, on one reply. An address among the answers resolves
/// the name on top of the stack: if it is a nameserver's name, pop it and ask
/// that address next; if it is the target, finish. Otherwise a glue address
/// among the additionals becomes the next nameserver. Otherwise a nameserver
/// name among the authorities is pushed, to be resolved first. Otherwise fail.
pub open spec fn delegate(s: ResolverView, p: PacketView) -> (ResolverView, StepView) {
    match first_of_type(p.answers, TYPE_A) {
        Some(RecordResultView::Address(a)) => if s.pending.len() > 1 {
            (ResolverView { pending: s.pending.drop_last(), nameserver: a, ..s }, StepView::Continue)
        } else {
            (s, StepView::Done(a))
        },
        _ => match first_of_type(p.additionals, TYPE_A) {
            Some(RecordResultView::Address(a)) => (
                ResolverView { nameserver: a, ..s },
                StepView::Continue,
            ),
            _ => match first_of_type(p.authorities, TYPE_NS) {
                Some(RecordResultView::NameServer(n)) => (
                    ResolverView { pending: s.pending.push(n), ..s },
                    StepView::Continue,
                ),
                _ => (s, StepView::Failed(ResolveError::NoProgress)),
            },
        },
    }
}

/// One step: the delegation rule, where a step that would go on counts one
/// hop, and fails instead once the hop limit is reached.
pub open spec fn step_of(s: ResolverView, p: PacketView) -> (ResolverView, StepView) {
    let (next, st) = delegate(s, p);
    if st is Continue {
        if s.hops + 1 >= MAX_HOPS {
            (s, StepView::Failed(ResolveError::TooManyHops))
        } else {
            (ResolverView { hops: s.hops + 1, ..next }, StepView::Continue)
        }
    } else {
        (s, st)
    }
}

impl Resolver {
    /// There is always a name to ask for.
    pub open spec fn wf(&self) -> bool {
        self.pending@.len() >= 1
    }

    /// A resolution of `domain_name` for records of type `record_type`,
    /// starting at the root server 198.41.0.4.
    pub fn new(domain_name: String, record_type: u16) -> (r: Resolver)
        ensures
            r.wf(),
            r@ == (ResolverView {
                nameserver: root_octets(),
                pending: seq![domain_name@],
                record_type,
                hops: 0,
            }),
    {
        let nameserver = IpAddress::V4([198, 41, 0, 4]);
        let mut pending: Vec<String> = Vec::new();
        pending.push(domain_name);
        let r = Resolver { nameserver, pending, record_type, hops: 0 };
        proof {
            assert(r@.pending =~= seq![domain_name@]);
            assert(r@.nameserver =~= root_octets());
        }
        r
    }

    /// The name to ask for next: the top of the stack.
    pub fn current_name(&self) -> (r: &String)
        requires
            self.wf(),
        ensures
            r@ == self@.pending.last(),
    {
        &self.pending[self.pending.len() - 1]
    }

    /// Counts one hop and goes on.
    fn go_on(&mut self) -> (r: Step)
        requires
            old(self).hops + 1 < MAX_HOPS,
        ensures
            r == Step::Continue,
            final(self).hops == old(self).hops + 1,
            final(self).nameserver == old(self).nameserver,
            final(self).pending == old(self).pending,
            final(self).record_type == old(self).record_type,
    {
        self.hops = self.hops + 1;
        Step::Continue
    }

    /// Takes the decoded reply to the last query and decides what comes next.
    pub fn step(&mut self, packet: &DNSPacket) -> (r: Step)
        requires
            old(self).wf(),
        ensures
            final(self).wf(),
            (final(self)@, r@) == step_of(old(self)@, packet@),
    {
        let ghost s = self@;
        let ghost pv = packet@;
        if let Some(DNSRecordResult::Address(a)) = packet.get_answer() {
            if self.pending.len() > 1 {
                if self.hops >= MAX_HOPS - 1 {
                    return Step::Failed(ResolveError::TooManyHops);
                }
                let _ = self.pending.pop();
                self.nameserver = *a;
                let r = self.go_on();
                proof {
                    assert(self@.pending =~= s.pending.drop_last());
                }
                return r;
            } else {
                return Step::Done(*a);
            }
        }
        if let Some(DNSRecordResult::Address(a)) = packet.get_nameserver_ip() {
            if self.hops >= MAX_HOPS - 1 {
                return Step::Failed(ResolveError::TooManyHops);
            }
            self.nameserver = *a;
            let r = self.go_on();
            proof {
                assert(self@.pending =~= s.pending);
            }
            return r;
        }
        if let Some(DNSRecordResult::NameServer(n)) = packet.get_nameserver() {
            if self.hops >= MAX_HOPS - 1 {
                return Step::Failed(ResolveError::TooManyHops);
            }
            self.pending.push(n.clone());
            let r = self.go_on();
            proof {
                assert(self@.pending =~= s.pending.push(n@));
            }
            return r;
        }
        Step::Failed(ResolveError::NoProgress)
    }
}

/// A reply with empty answer, authority and additional sections ends the
/// resolution with `NoProgress`, the state unchanged.
pub proof fn lemma_empty_reply_fails(s: ResolverView, p: PacketView)
    requires
        p.answers.len() == 0,
        p.authorities.len() == 0,
        p.additionals.len() == 0,
    ensures
        step_of(s, p) == (s, StepView::Failed(ResolveError::NoProgress)),
{
}

/// A referral that names a nameserver but brings no address for it pushes
/// that name, which is asked for next, of the same nameserver; once a reply
/// answers it with an address, the name is popped and the name below it is
/// asked for again, of that address.
pub proof fn lemma_referral_without_glue(
    s: ResolverView,
    referral: PacketView,
    n: Seq<char>,
    answer: PacketView,
    a: Seq<u8>,
)
    requires
        s.pending.len() >= 1,
        s.hops + 2 < MAX_HOPS,
        first_of_type(referral.answers, TYPE_A) is None,
        first_of_type(referral.additionals, TYPE_A) is None,
        first_of_type(referral.authorities, TYPE_NS) == Some(RecordResultView::NameServer(n)),
        first_of_type(answer.answers, TYPE_A) == Some(RecordResultView::Address(a)),
    ensures
        step_of(s, referral).1 is Continue,
        step_of(s, referral).0.pending == s.pending.push(n),
        step_of(s, referral).0.pending.last() == n,
        step_of(s, referral).0.nameserver == s.nameserver,
        step_of(step_of(s, referral).0, answer).1 is Continue,
        step_of(step_of(s, referral).0, answer).0.pending == s.pending,
        step_of(step_of(s, referral).0, answer).0.nameserver == a,
{
    assert(s.pending.push(n).drop_last() =~= s.pending);
}

} // verus!
