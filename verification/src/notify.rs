//! Notifying users about what tools are doing: the kinds of notification,
//! how chatty to be, and where each kind goes.

use vstd::prelude::*;

verus! {

/// How chatty the notification system should be.
#[derive(Clone, Copy, Debug, Eq, Ord, PartialEq, PartialOrd, Structural)]
pub enum ChatterLevel {
    /// A minimal level of output: only warnings and errors are reported.
    Minimal,
    /// The normal level of output: informational messages are reported.
    Normal,
}

/// The kind of notification that is being produced.
#[derive(Clone, Copy, Debug, Eq, PartialEq, Structural)]
pub enum NotificationKind {
    /// An informational notice.
    Note,
    /// Warning of an unusual condition; the program will likely perform as intended.
    Warning,
    /// Notification of a severe problem; the program will likely fail but will attempt to continue.
    Severe,
    /// Notification of a fatal error; the program must give up.
    Fatal,
}

/// A no-op notification backend: it drops every notification.
#[derive(Clone, Copy, Debug)]
pub struct NoopNotificationBackend {}

impl NoopNotificationBackend {
    /// Create a new no-op backend.
    pub fn new() -> (b: NoopNotificationBackend) {
        NoopNotificationBackend {}
    }
}

/// The terminal stream that a notification is written to.
#[derive(Clone, Copy, Debug, Eq, PartialEq, Structural)]
pub enum NotifyStream {
    Stdout,
    Stderr,
}

/// Where a notification of this kind goes at this chatter level: notes go
/// to standard output unless the chatter is minimal, when they are
/// dropped; everything else goes to standard error.
pub open spec fn spec_notification_stream(chatter: ChatterLevel, kind: NotificationKind) -> Option<NotifyStream> {
    match kind {
        NotificationKind::Note => if chatter == ChatterLevel::Minimal {
            None
        } else {
            Some(NotifyStream::Stdout)
        },
        _ => Some(NotifyStream::Stderr),
    }
}

/// Where a notification of this kind goes at this chatter level, if it is
/// shown at all.
pub fn notification_stream(chatter: ChatterLevel, kind: NotificationKind) -> (s: Option<NotifyStream>)
    ensures
        s == spec_notification_stream(chatter, kind),
{
    match kind {
        NotificationKind::Note => if chatter == ChatterLevel::Minimal {
            None
        } else {
            Some(NotifyStream::Stdout)
        },
        _ => Some(NotifyStream::Stderr),
    }
}

/// The prefix that a message of this kind is printed with when no other is
/// given.
pub fn default_prefix(kind: NotificationKind) -> (s: &'static str)
    ensures
        kind == NotificationKind::Note ==> s@ == "note:"@,
        kind == NotificationKind::Warning ==> s@ == "warning:"@,
        kind == NotificationKind::Severe ==> s@ == "severe:"@,
        kind == NotificationKind::Fatal ==> s@ == "fatal:"@,
{
    match kind {
        NotificationKind::Note => "note:",
        NotificationKind::Warning => "warning:",
        NotificationKind::Severe => "severe:",
        NotificationKind::Fatal => "fatal:",
    }
}

} // verus!
