//! The connection attempt: a linear state machine from idle to one
//! terminal outcome.
//!
//! The machine decides; the surrounding program performs. Each [`step`]
//! consumes one event from the driver (the TCP connect finished, the
//! handshake failed, the operator typed a password, ...) and returns the
//! one [`Action`] the driver must perform next. Once a step fails the
//! attempt is abandoned: every state has exactly one success edge and one
//! failure edge, except that authentication dispatches on the credential.
//!
//! [`step`]: ConnectionAttempt::step

use vstd::prelude::*;
use crate::tunnel::{AuthCredential, CredentialModel, TunnelDefinition};

verus! {

/// Why an attempt ended in failure.
#[derive(Clone, Copy, Debug, PartialEq, Eq, Structural)]
pub enum FailureKind {
    /// The TCP connection timed out or was refused.
    NetworkError,
    /// The SSH handshake failed over the established stream.
    HandshakeError,
    /// The definition asks for key authentication but stores no key path.
    MissingKeyPath,
    /// The remote host rejected the credentials.
    AuthError,
}

/// Where an attempt stands. `Succeeded` and `Failed` are terminal.
#[derive(Clone, Copy, Debug, PartialEq, Eq, Structural)]
pub enum AttemptState {
    Idle,
    Connecting,
    Handshaking,
    Authenticating { awaiting_password: bool },
    Succeeded,
    Failed { reason: FailureKind },
}

/// What the driver must do next.
pub enum Action {
    /// Open a TCP connection to the attempt's hostname on the SSH port,
    /// bounded by this many seconds.
    Dial { timeout_seconds: u64 },
    /// Perform the SSH handshake over the established stream.
    Handshake,
    /// Ask the operator for a password and report it back.
    PromptPassword,
    /// Authenticate with this key file and the attempt's username.
    AuthenticateWithKey { key_path: String },
    /// Authenticate with this password and the attempt's username.
    AuthenticateWithPassword { password: String },
    /// The attempt is over; report the terminal state.
    Finished,
}

/// What the driver reports back to the machine.
pub enum Event {
    Begin,
    ConnectOk,
    ConnectFailed,
    HandshakeOk,
    HandshakeFailed,
    PasswordEntered { password: String },
    AuthOk,
    AuthFailed,
}

/// Does the event answer what the state is waiting for?
pub open spec fn event_fits(s: AttemptState, e: Event) -> bool {
    match s {
        AttemptState::Idle => e is Begin,
        AttemptState::Connecting => e is ConnectOk || e is ConnectFailed,
        AttemptState::Handshaking => e is HandshakeOk || e is HandshakeFailed,
        AttemptState::Authenticating { awaiting_password } => if awaiting_password {
            e is PasswordEntered
        } else {
            e is AuthOk || e is AuthFailed
        },
        AttemptState::Succeeded => false,
        AttemptState::Failed { .. } => false,
    }
}

/// One attempt against one definition: the connection parameters copied
/// from it, and the current state.
pub struct ConnectionAttempt {
    pub id: u64,
    pub hostname: String,
    pub username: String,
    pub credential: AuthCredential,
    pub timeout_seconds: u64,
    pub state: AttemptState,
}

impl ConnectionAttempt {
    /// Start an attempt for one definition, in the idle state.
    pub fn new(d: &TunnelDefinition) -> (a: ConnectionAttempt)
        ensures
            a.id == d.id,
            a.hostname@ == d.hostname@,
            a.username@ == d.username@,
            a.credential@ == d.credential@,
            a.timeout_seconds == d.timeout_seconds,
            a.state == AttemptState::Idle,
    {
        ConnectionAttempt {
            id: d.id,
            hostname: d.hostname.clone(),
            username: d.username.clone(),
            credential: d.credential.duplicate(),
            timeout_seconds: d.timeout_seconds,
            state: AttemptState::Idle,
        }
    }

    /// Advance the machine by one event and return the next action.
    ///
    /// The postconditions are the whole transition table. Two of them are
    /// laws of the attempt on their own:
    /// - key authentication without a key path fails with
    ///   `MissingKeyPath` directly after the handshake, with no
    ///   authentication action ever issued; and
    /// - the operator is prompted only when the credential is password
    ///   authentication with no saved password, so an attempt with a
    ///   saved password never prompts.
    pub fn step(&mut self, e: Event) -> (a: Action)
        requires
            event_fits(old(self).state, e),
        ensures
            final(self).id == old(self).id,
            final(self).hostname == old(self).hostname,
            final(self).username == old(self).username,
            final(self).credential == old(self).credential,
            final(self).timeout_seconds == old(self).timeout_seconds,
            a is PromptPassword ==> old(self).credential@ == (CredentialModel::PasswordAuth {
                saved_password: None,
            }),
            old(self).state is Idle ==> final(self).state == AttemptState::Connecting && a == (
            Action::Dial { timeout_seconds: old(self).timeout_seconds }),
            old(self).state is Connecting && e is ConnectOk ==> final(self).state
                == AttemptState::Handshaking && a is Handshake,
            old(self).state is Connecting && e is ConnectFailed ==> final(self).state == (
            AttemptState::Failed { reason: FailureKind::NetworkError }) && a is Finished,
            old(self).state is Handshaking && e is HandshakeFailed ==> final(self).state == (
            AttemptState::Failed { reason: FailureKind::HandshakeError }) && a is Finished,
            old(self).state is Handshaking && e is HandshakeOk ==> match old(self).credential@ {
                CredentialModel::KeyAuth { key_path: Some(p) } => final(self).state == (
                AttemptState::Authenticating { awaiting_password: false }) && (a matches
                Action::AuthenticateWithKey { key_path } && key_path@ == p),
                CredentialModel::KeyAuth { key_path: None } => final(self).state == (
                AttemptState::Failed { reason: FailureKind::MissingKeyPath }) && a is Finished,
                CredentialModel::PasswordAuth { saved_password: Some(pw) } => final(self).state
                    == (AttemptState::Authenticating { awaiting_password: false }) && (a matches
                Action::AuthenticateWithPassword { password } && password@ == pw),
                CredentialModel::PasswordAuth { saved_password: None } => final(self).state == (
                AttemptState::Authenticating { awaiting_password: true }) && a is PromptPassword,
            },
            old(self).state == (AttemptState::Authenticating { awaiting_password: true }) ==> (e
                matches Event::PasswordEntered { password } && final(self).state == (
            AttemptState::Authenticating { awaiting_password: false }) && (a matches
            Action::AuthenticateWithPassword { password: supplied } && supplied@ == password@)),
            old(self).state == (AttemptState::Authenticating { awaiting_password: false }) && e
                is AuthOk ==> final(self).state == AttemptState::Succeeded && a is Finished,
            old(self).state == (AttemptState::Authenticating { awaiting_password: false }) && e
                is AuthFailed ==> final(self).state == (AttemptState::Failed {
                reason: FailureKind::AuthError }) && a is Finished,
    {
        let cur = self.state;
        match cur {
            AttemptState::Idle => {
                self.state = AttemptState::Connecting;
                Action::Dial { timeout_seconds: self.timeout_seconds }
            },
            AttemptState::Connecting => {
                match e {
                    Event::ConnectOk => {
                        self.state = AttemptState::Handshaking;
                        Action::Handshake
                    },
                    _ => {
                        self.state = AttemptState::Failed {
                            reason: FailureKind::NetworkError,
                        };
                        Action::Finished
                    },
                }
            },
            AttemptState::Handshaking => {
                match e {
                    Event::HandshakeOk => {
                        let cred = self.credential.duplicate();
                        match cred {
                            AuthCredential::KeyAuth { key_path: Some(p) } => {
                                self.state = AttemptState::Authenticating {
                                    awaiting_password: false,
                                };
                                Action::AuthenticateWithKey { key_path: p }
                            },
                            AuthCredential::KeyAuth { key_path: None } => {
                                self.state = AttemptState::Failed {
                                    reason: FailureKind::MissingKeyPath,
                                };
                                Action::Finished
                            },
                            AuthCredential::PasswordAuth { saved_password: Some(pw) } => {
                                self.state = AttemptState::Authenticating {
                                    awaiting_password: false,
                                };
                                Action::AuthenticateWithPassword { password: pw }
                            },
                            AuthCredential::PasswordAuth { saved_password: None } => {
                                self.state = AttemptState::Authenticating {
                                    awaiting_password: true,
                                };
                                Action::PromptPassword
                            },
                        }
                    },
                    _ => {
                        self.state = AttemptState::Failed {
                            reason: FailureKind::HandshakeError,
                        };
                        Action::Finished
                    },
                }
            },
            AttemptState::Authenticating { awaiting_password } => {
                if awaiting_password {
                    match e {
                        Event::PasswordEntered { password } => {
                            self.state = AttemptState::Authenticating {
                                awaiting_password: false,
                            };
                            Action::AuthenticateWithPassword { password }
                        },
                        _ => {
                            proof {
                                assert(false);
                            }
                            Action::Finished
                        },
                    }
                } else {
                    match e {
                        Event::AuthOk => {
                            self.state = AttemptState::Succeeded;
                            Action::Finished
                        },
                        Event::AuthFailed => {
                            self.state = AttemptState::Failed {
                                reason: FailureKind::AuthError,
                            };
                            Action::Finished
                        },
                        _ => {
                            proof {
                                assert(false);
                            }
                            Action::Finished
                        },
                    }
                }
            },
            AttemptState::Succeeded => {
                proof {
                    assert(false);
                }
                Action::Finished
            },
            AttemptState::Failed { .. } => {
                proof {
                    assert(false);
                }
                Action::Finished
            },
        }
    }
}

} // verus!
