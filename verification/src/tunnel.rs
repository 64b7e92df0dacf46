//! The data model: a tunnel definition and the credential attached to it.

use vstd::prelude::*;

verus! {

/// How a connection attempt authenticates against the remote host.
///
/// A key credential with no path is structurally valid but cannot be used
/// to connect; a password credential with no saved password asks the
/// operator for one at connect time.
#[derive(Clone)]
pub enum AuthCredential {
    KeyAuth { key_path: Option<String> },
    PasswordAuth { saved_password: Option<String> },
}

/// Mathematical model of an [`AuthCredential`]: strings become character
/// sequences.
#[verifier::ext_equal]
pub enum CredentialModel {
    KeyAuth { key_path: Option<Seq<char>> },
    PasswordAuth { saved_password: Option<Seq<char>> },
}

impl View for AuthCredential {
    type V = CredentialModel;

    open spec fn view(&self) -> CredentialModel {
        match self {
            AuthCredential::KeyAuth { key_path } => CredentialModel::KeyAuth {
                key_path: match key_path {
                    Some(p) => Some(p@),
                    None => None,
                },
            },
            AuthCredential::PasswordAuth { saved_password } => CredentialModel::PasswordAuth {
                saved_password: match saved_password {
                    Some(p) => Some(p@),
                    None => None,
                },
            },
        }
    }
}

/// One named tunnel configuration: endpoints, credential, and flags.
///
/// `local_port` and `remote_port` are stored configuration only; a
/// connection attempt authenticates against `hostname` on the SSH port and
/// never forwards traffic. `timeout_seconds` bounds only the TCP connect
/// step and is always positive.
#[derive(Clone)]
pub struct TunnelDefinition {
    pub id: u64,
    pub name: String,
    pub username: String,
    pub hostname: String,
    pub local_port: u16,
    pub remote_port: u16,
    pub credential: AuthCredential,
    pub timeout_seconds: u64,
    pub auto_connect: bool,
}

/// Mathematical model of a [`TunnelDefinition`].
#[verifier::ext_equal]
pub struct TunnelModel {
    pub id: u64,
    pub name: Seq<char>,
    pub username: Seq<char>,
    pub hostname: Seq<char>,
    pub local_port: u16,
    pub remote_port: u16,
    pub credential: CredentialModel,
    pub timeout_seconds: u64,
    pub auto_connect: bool,
}

impl View for TunnelDefinition {
    type V = TunnelModel;

    open spec fn view(&self) -> TunnelModel {
        TunnelModel {
            id: self.id,
            name: self.name@,
            username: self.username@,
            hostname: self.hostname@,
            local_port: self.local_port,
            remote_port: self.remote_port,
            credential: self.credential@,
            timeout_seconds: self.timeout_seconds,
            auto_connect: self.auto_connect,
        }
    }
}

impl TunnelModel {
    /// A definition is well formed exactly when its connect timeout is
    /// positive.
    pub open spec fn wf(self) -> bool {
        self.timeout_seconds > 0
    }

    /// Every text field is short enough for its length to be stored.
    /// Any definition whose fields came from real strings satisfies this.
    pub open spec fn bounded(self) -> bool {
        &&& self.name.len() <= u64::MAX
        &&& self.username.len() <= u64::MAX
        &&& self.hostname.len() <= u64::MAX
        &&& (match self.credential {
            CredentialModel::KeyAuth { key_path: Some(p) } => p.len() <= u64::MAX,
            CredentialModel::PasswordAuth { saved_password: Some(p) } => p.len() <= u64::MAX,
            _ => true,
        })
    }
}

impl AuthCredential {
    /// A copy of this credential with the same contents.
    pub fn duplicate(&self) -> (r: AuthCredential)
        ensures
            r@ == self@,
    {
        match self {
            AuthCredential::KeyAuth { key_path } => AuthCredential::KeyAuth {
                key_path: match key_path {
                    Some(p) => Some(p.clone()),
                    None => None,
                },
            },
            AuthCredential::PasswordAuth { saved_password } => AuthCredential::PasswordAuth {
                saved_password: match saved_password {
                    Some(p) => Some(p.clone()),
                    None => None,
                },
            },
        }
    }
}

impl TunnelDefinition {
    /// A copy of this definition with the same contents.
    pub fn duplicate(&self) -> (r: TunnelDefinition)
        ensures
            r@ == self@,
    {
        TunnelDefinition {
            id: self.id,
            name: self.name.clone(),
            username: self.username.clone(),
            hostname: self.hostname.clone(),
            local_port: self.local_port,
            remote_port: self.remote_port,
            credential: self.credential.duplicate(),
            timeout_seconds: self.timeout_seconds,
            auto_connect: self.auto_connect,
        }
    }
}

/// The connect timeout, in seconds, that a definition receives when none
/// is stored for it.
pub fn default_timeout() -> (t: u64)
    ensures
        t == 30,
{
    30
}

} // verus!
