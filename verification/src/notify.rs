//! Notices to the user, which lapse after a few seconds.

use vstd::prelude::*;
use std::time::Instant;
use crate::network::{NetworkEvent, NetworkEventView};
use crate::outside::{monotonic_now, nanos_since};

verus! {

/// How long a notification is shown, in nanoseconds: five seconds.
pub const NOTIFICATION_LIFETIME_NANOS: u128 = 5_000_000_000;

/// How grave a notification is.
#[derive(Debug, Clone, Copy, PartialEq, Eq, Structural)]
pub enum NotificationLevel {
    Info,
    Success,
    Error,
}

/// A notice to the user, with the moment of its making.
#[derive(Debug)]
pub struct Notification {
    pub message: String,
    pub level: NotificationLevel,
    pub timestamp: Instant,
}

impl Notification {
    /// A notification made at this moment.
    pub fn new(message: String, level: NotificationLevel) -> (notification: Self)
        ensures
            notification.message@ == message@,
            notification.level == level,
    {
        Notification { message, level, timestamp: monotonic_now() }
    }

    /// Whether the notification has been shown for longer than its
    /// lifetime. This reads the clock: the answer is
    /// [`Notification::expired_after`] of the time that has passed since the
    /// notification was made.
    pub fn is_expired(&self) -> (expired: bool) {
        let elapsed = nanos_since(&self.timestamp);
        Notification::expired_after(elapsed)
    }

    /// Whether a notification has lapsed that was made `elapsed_nanos`
    /// nanoseconds ago: it has once more than five seconds have passed.
    pub fn expired_after(elapsed_nanos: u128) -> (expired: bool)
        ensures
            expired == (elapsed_nanos > NOTIFICATION_LIFETIME_NANOS),
    {
        elapsed_nanos > NOTIFICATION_LIFETIME_NANOS
    }
}

/// The short form in which a peer of the transport is shown: a name of more
/// than twelve characters is cut down to its first six and its last six,
/// with three dots between.
pub open spec fn short_name(name: Seq<char>) -> Seq<char> {
    if name.len() > 12 {
        name.subrange(0, 6) + "..."@ + name.subrange(name.len() - 6, name.len() as int)
    } else {
        name
    }
}

/// What the user is told of an event, and how gravely: that a peer has
/// connected, that a connection is being made, that one has failed. Of the
/// other events the user is told nothing as they come.
pub open spec fn notice_of(event: NetworkEventView) -> Option<(Seq<char>, NotificationLevel)> {
    match event {
        NetworkEventView::PeerConnected(peer) => Some(
            ("Connected to peer "@ + short_name(peer), NotificationLevel::Success),
        ),
        NetworkEventView::ConnectionDialing { address } => Some(
            ("Connecting to "@ + address + "..."@, NotificationLevel::Info),
        ),
        NetworkEventView::ConnectionFailed { address, error } => Some(
            ("Connection failed to "@ + address + ": "@ + error, NotificationLevel::Error),
        ),
        _ => None,
    }
}

/// The short form in which a peer of the transport is shown.
pub fn short_peer_name(name: &str) -> (short: String)
    ensures
        short@ == short_name(name@),
{
    let length = name.unicode_len();
    if length > 12 {
        let mut short = String::from_str(name.substring_char(0, 6));
        short.append("...");
        short.append(name.substring_char(length - 6, length));
        short
    } else {
        String::from_str(name)
    }
}

/// `lead` followed by `rest`.
fn joined_text(lead: &str, rest: &str) -> (text: String)
    ensures
        text@ == lead@ + rest@,
{
    let mut text = String::from_str(lead);
    text.append(rest);
    text
}

impl Notification {
    /// The notification to show on `event`, if the user is told of it.
    pub fn for_event(event: &NetworkEvent) -> (notification: Option<Notification>)
        ensures
            match notification {
                Some(notification) => notice_of(event@) == Some(
                    (notification.message@, notification.level),
                ),
                None => notice_of(event@) is None,
            },
    {
        match event {
            NetworkEvent::PeerConnected(peer) => {
                let short = short_peer_name(peer.as_str());
                Some(
                    Notification::new(
                        joined_text("Connected to peer ", short.as_str()),
                        NotificationLevel::Success,
                    ),
                )
            },
            NetworkEvent::ConnectionDialing { address } => {
                let mut message = joined_text("Connecting to ", address.as_str());
                message.append("...");
                Some(Notification::new(message, NotificationLevel::Info))
            },
            NetworkEvent::ConnectionFailed { address, error } => {
                let mut message = joined_text("Connection failed to ", address.as_str());
                message.append(": ");
                message.append(error.as_str());
                Some(Notification::new(message, NotificationLevel::Error))
            },
            _ => None,
        }
    }

    /// The notification that a channel was learned of from a message:
    /// `New channel discovered: ` and the channel's name.
    pub fn channel_discovered(name: &str) -> (notification: Notification)
        ensures
            notification.message@ == "New channel discovered: "@ + name@,
            notification.level == NotificationLevel::Info,
    {
        Notification::new(joined_text("New channel discovered: ", name), NotificationLevel::Info)
    }

    /// The notification that a peer has announced a channel: `New channel: `
    /// and the channel's name.
    pub fn channel_announced(name: &str) -> (notification: Notification)
        ensures
            notification.message@ == "New channel: "@ + name@,
            notification.level == NotificationLevel::Info,
    {
        Notification::new(joined_text("New channel: ", name), NotificationLevel::Info)
    }

    /// The notification that a message could not be persisted:
    /// `Failed to store message: ` and the repository's words.
    pub fn store_failed(error: &str) -> (notification: Notification)
        ensures
            notification.message@ == "Failed to store message: "@ + error@,
            notification.level == NotificationLevel::Error,
    {
        Notification::new(joined_text("Failed to store message: ", error), NotificationLevel::Error)
    }
}

impl Clone for Notification {
    fn clone(&self) -> (copy: Self)
        ensures
            copy.message@ == self.message@,
            copy.level == self.level,
            copy.timestamp == self.timestamp,
    {
        Notification {
            message: self.message.clone(),
            level: self.level,
            timestamp: self.timestamp,
        }
    }
}

} // verus!
