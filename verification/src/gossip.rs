//! The messages gossiped on the runtime's topics, and where each kind
//! goes: events, heads summaries and drift messages belong on the
//! application topic; signed distribution logs and their head summaries
//! belong on the per-author distribution topics. Anything else is a
//! misroute, reported and dropped.
use vstd::prelude::*;

use crate::distribution::heads::{PublicationHeads, RevocationHeads};
use crate::distribution::publication::PublicationEvent;
use crate::distribution::revocation::RevocationEvent;
use crate::drift_message::DriftMessage;
use crate::event::Event;
use crate::heads_summary::HeadsSummary;
use crate::ids::{id_eq, AuthorPubkey, IdMap, PeerPubkey};
use crate::runtime::PeerWarning;

verus! {

/// A gossiped message.
pub enum GossipMessage {
    /// An event of the topic's DAG.
    Event(Event),
    /// A peer's signed author heads.
    HeadsSummary(HeadsSummary),
    /// A peer's signed state digest at an anchor.
    Drift(DriftMessage),
    /// A signed revocation.
    Revocation(RevocationEvent),
    /// A signed publication.
    Publication(PublicationEvent),
    /// A peer's revocation-log head for an author.
    RevocationHeads(RevocationHeads),
    /// A peer's publication-log head for an author.
    PublicationHeads(PublicationHeads),
}

/// Where a message received on the application topic goes.
pub enum AppRoute {
    /// To the DAG intake.
    Event(Event),
    /// To the heads-summary screen.
    HeadsSummary(HeadsSummary),
    /// To the drift inbox.
    Drift(DriftMessage),
    /// Nowhere: a distribution message on the application topic; the
    /// warning to report.
    Misrouted(PeerWarning),
}

/// Route a message received on the application topic.
pub fn route_app_message(msg: GossipMessage) -> (r: AppRoute)
    ensures
        match msg {
            GossipMessage::Event(e) => r == AppRoute::Event(e),
            GossipMessage::HeadsSummary(h) => r == AppRoute::HeadsSummary(h),
            GossipMessage::Drift(d) => r == AppRoute::Drift(d),
            _ => r == AppRoute::Misrouted(PeerWarning::DecodeFailed { peer: None }),
        },
{
    match msg {
        GossipMessage::Event(e) => AppRoute::Event(e),
        GossipMessage::HeadsSummary(h) => AppRoute::HeadsSummary(h),
        GossipMessage::Drift(d) => AppRoute::Drift(d),
        GossipMessage::Revocation(_)
        | GossipMessage::Publication(_)
        | GossipMessage::RevocationHeads(_)
        | GossipMessage::PublicationHeads(_) => AppRoute::Misrouted(PeerWarning::DecodeFailed { peer: None }),
    }
}

/// Where a message received on an author's distribution topic goes.
/// Every route but [`DistributionRoute::Loopback`] is evidence that the
/// topic is reachable.
pub enum DistributionRoute {
    /// Our own head summary echoed back: ignored.
    Loopback,
    /// To the author's revocation log.
    Revocation(RevocationEvent),
    /// To the author's publication log.
    Publication(PublicationEvent),
    /// To the revocation pull-on-behind check.
    RevocationHeads(RevocationHeads),
    /// To the publication pull-on-behind check.
    PublicationHeads(PublicationHeads),
    /// Nowhere: an application message on a distribution topic; the
    /// warning to report.
    Misrouted(PeerWarning),
}

/// Route a message received on a distribution topic, where `own` is our
/// peer key: a head summary we advertised ourselves is a loopback.
pub fn route_distribution_message(own: PeerPubkey, msg: GossipMessage) -> (r: DistributionRoute)
    ensures
        match msg {
            GossipMessage::RevocationHeads(h) => if h.advertiser == own {
                r == DistributionRoute::Loopback
            } else {
                r == DistributionRoute::RevocationHeads(h)
            },
            GossipMessage::PublicationHeads(h) => if h.advertiser == own {
                r == DistributionRoute::Loopback
            } else {
                r == DistributionRoute::PublicationHeads(h)
            },
            GossipMessage::Revocation(ev) => r == DistributionRoute::Revocation(ev),
            GossipMessage::Publication(ev) => r == DistributionRoute::Publication(ev),
            _ => r == DistributionRoute::Misrouted(PeerWarning::DecodeFailed { peer: None }),
        },
{
    match msg {
        GossipMessage::RevocationHeads(h) => {
            if id_eq(&h.advertiser, &own) {
                DistributionRoute::Loopback
            } else {
                DistributionRoute::RevocationHeads(h)
            }
        },
        GossipMessage::PublicationHeads(h) => {
            if id_eq(&h.advertiser, &own) {
                DistributionRoute::Loopback
            } else {
                DistributionRoute::PublicationHeads(h)
            }
        },
        GossipMessage::Revocation(ev) => DistributionRoute::Revocation(ev),
        GossipMessage::Publication(ev) => DistributionRoute::Publication(ev),
        GossipMessage::Event(_) | GossipMessage::HeadsSummary(_) | GossipMessage::Drift(_) => {
            DistributionRoute::Misrouted(PeerWarning::DecodeFailed { peer: None })
        },
    }
}

/// Note that `author`'s distribution topic delivered a routed message at
/// `now`: every route refreshes the author's last sync time but our own
/// heads coming back, which tell nothing of the topic.
pub fn note_distribution_sync(
    last_sync: &mut IdMap<AuthorPubkey, u64>,
    author: AuthorPubkey,
    now: u64,
    route: &DistributionRoute,
)
    requires
        old(last_sync).wf(),
    ensures
        final(last_sync).wf(),
        *route is Loopback ==> final(last_sync)@ == old(last_sync)@,
        !(*route is Loopback) ==> final(last_sync)@ == old(last_sync)@.insert(author, now),
{
    match route {
        DistributionRoute::Loopback => {},
        _ => {
            last_sync.insert(author, now);
        },
    }
}

/// What the topic subscription delivered.
pub enum SubscriptionEvent {
    /// A message.
    Message(GossipMessage),
    /// The subscription ended.
    Closed,
    /// The subscription fell behind and dropped this many messages.
    Lagged(u64),
    /// A message failed to decode; the forwarding peer, when known.
    DecodeFailed(Option<PeerPubkey>),
    /// The transport failed, with its description.
    TransportError(String),
}

/// What the runtime does with a subscription event.
pub enum SubscriptionAction {
    /// Route and handle the message.
    Handle(GossipMessage),
    /// Stop the runtime.
    Stop,
    /// Report the warning.
    Warn(PeerWarning),
    /// Report the warning and publish our heads summary, so that peers
    /// push what we missed.
    WarnAndPublishHeads(PeerWarning),
    /// Too many consecutive transport errors: halt, reporting the count
    /// and the latest error.
    Halt {
        /// Consecutive transport errors.
        consecutive: usize,
        /// The latest error's description.
        latest: String,
    },
}

/// React to a subscription event, counting consecutive transport errors
/// in `consecutive_errors`: a message resets the count; a transport
/// error raises it and halts the runtime once it reaches
/// `halt_threshold`; a lag is reported and answered with our heads
/// summary; a decode failure is only reported.
pub fn on_subscription_event(consecutive_errors: &mut usize, halt_threshold: usize, ev: SubscriptionEvent) -> (r:
    SubscriptionAction)
    requires
        *old(consecutive_errors) < usize::MAX,
    ensures
        match ev {
            SubscriptionEvent::Message(m) => *final(consecutive_errors) == 0 && r == SubscriptionAction::Handle(m),
            SubscriptionEvent::Closed => *final(consecutive_errors) == *old(consecutive_errors) && r
                == SubscriptionAction::Stop,
            SubscriptionEvent::Lagged(n) => *final(consecutive_errors) == *old(consecutive_errors) && r
                == SubscriptionAction::WarnAndPublishHeads(PeerWarning::BroadcastLagged { dropped: n }),
            SubscriptionEvent::DecodeFailed(peer) => *final(consecutive_errors) == *old(consecutive_errors) && r
                == SubscriptionAction::Warn(PeerWarning::DecodeFailed { peer }),
            SubscriptionEvent::TransportError(reason) => {
                &&& *final(consecutive_errors) == *old(consecutive_errors) + 1
                &&& *final(consecutive_errors) >= halt_threshold ==> r == (SubscriptionAction::Halt {
                    consecutive: *final(consecutive_errors),
                    latest: reason,
                })
                &&& *final(consecutive_errors) < halt_threshold ==> r == SubscriptionAction::Warn(
                    PeerWarning::TransportError { reason, consecutive: *final(consecutive_errors) },
                )
            },
        },
{
    match ev {
        SubscriptionEvent::Message(m) => {
            *consecutive_errors = 0;
            SubscriptionAction::Handle(m)
        },
        SubscriptionEvent::Closed => SubscriptionAction::Stop,
        SubscriptionEvent::Lagged(n) => SubscriptionAction::WarnAndPublishHeads(
            PeerWarning::BroadcastLagged { dropped: n },
        ),
        SubscriptionEvent::DecodeFailed(peer) => SubscriptionAction::Warn(PeerWarning::DecodeFailed { peer }),
        SubscriptionEvent::TransportError(reason) => {
            *consecutive_errors = *consecutive_errors + 1;
            if *consecutive_errors >= halt_threshold {
                SubscriptionAction::Halt { consecutive: *consecutive_errors, latest: reason }
            } else {
                SubscriptionAction::Warn(PeerWarning::TransportError { reason, consecutive: *consecutive_errors })
            }
        },
    }
}

} // verus!
