use vstd::prelude::*;

verus! {

/// The token that opens the game services to one account.
pub struct MinecraftAccessToken(pub String);

impl MinecraftAccessToken {
    /// The token's text.
    pub fn secret(&self) -> (r: &str)
        ensures
            r@ == self.0@,
    {
        self.0.as_str()
    }
}

/// What is sent to Xbox Live to sign a user in.
pub struct XboxLiveAuthenticateRequest<'a> {
    pub properties: XboxLiveAuthenticateRequestProperties<'a>,
    pub relying_party: &'a str,
    pub token_type: &'a str,
}

/// How the user proves to Xbox Live who they are.
pub struct XboxLiveAuthenticateRequestProperties<'a> {
    pub auth_method: &'a str,
    pub site_name: &'a str,
    pub rps_ticket: &'a str,
}

/// What is sent to Xbox Live to get a security token.
pub struct XboxLiveSecurityTokenRequest<'a> {
    pub properties: XboxLiveSecurityTokenRequestProperties<'a>,
    pub relying_party: &'a str,
    pub token_type: &'a str,
}

/// The user tokens that a security token is asked for.
pub struct XboxLiveSecurityTokenRequestProperties<'a> {
    pub sandbox_id: &'a str,
    pub user_tokens: &'a [&'a str],
}

/// The claims about a user, each a list of names with their values.
pub struct XboxUserIdentityDisplayClaims {
    pub xui: Vec<Vec<(String, String)>>,
}

/// What is sent to the game services to log in with an Xbox identity.
pub struct MinecraftLoginWithXboxRequest<'a> {
    pub identity_token: &'a str,
}

/// What the game services answer to a login.
pub struct MinecraftLoginWithXboxResponse {
    pub username: String,
    pub access_token: String,
    pub expires_in: usize,
}

/// One skin of a profile.
#[derive(Clone)]
pub struct MinecraftProfileSkin {
    pub url: String,
    pub state: SkinState,
    pub variant: SkinVariant,
}

/// Whether a skin is the one in use.
#[derive(Clone, Copy, Eq, PartialEq, Structural)]
pub enum SkinState {
    Active,
    Inactive,
}

/// The arm width of a skin's model.
#[derive(Clone, Copy, Eq, PartialEq, Structural)]
pub enum SkinVariant {
    Classic,
    Slim,
    Other,
}

/// Why the secret storage did not do what was asked of it.
#[derive(Debug, Clone, Copy, Eq, PartialEq, Structural)]
pub enum SecretStorageError {
    AccessDenied,
    SerializationError,
    IoError,
    UnknownError,
    NotUnique,
}

/// What went wrong in the keyring, as far as the launcher tells faults apart.
#[derive(Debug, Clone, Copy, Eq, PartialEq, Structural)]
pub enum KeyringFault {
    /// The keyring file could not be read or written.
    FileIo,
    /// Another fault of the keyring file.
    FileOther,
    /// The keyring service says that the collection is locked.
    ServiceLocked,
    /// Another answer of the keyring service.
    ServiceOther,
    /// The user dismissed the prompt.
    Dismissed,
    /// The connection to the service failed.
    BusIo,
    /// Another fault of the connection.
    BusOther,
}

impl SecretStorageError {
    /// The error that stands for a keyring fault.
    pub open spec fn of(fault: KeyringFault) -> SecretStorageError {
        match fault {
            KeyringFault::FileIo => SecretStorageError::IoError,
            KeyringFault::FileOther => SecretStorageError::UnknownError,
            KeyringFault::ServiceLocked => SecretStorageError::AccessDenied,
            KeyringFault::ServiceOther => SecretStorageError::UnknownError,
            KeyringFault::Dismissed => SecretStorageError::AccessDenied,
            KeyringFault::BusIo => SecretStorageError::IoError,
            KeyringFault::BusOther => SecretStorageError::UnknownError,
        }
    }

    /// Maps a keyring fault to the error that the launcher shows.
    pub fn from_fault(fault: KeyringFault) -> (r: SecretStorageError)
        ensures
            r == SecretStorageError::of(fault),
    {
        match fault {
            KeyringFault::FileIo => SecretStorageError::IoError,
            KeyringFault::FileOther => SecretStorageError::UnknownError,
            KeyringFault::ServiceLocked => SecretStorageError::AccessDenied,
            KeyringFault::ServiceOther => SecretStorageError::UnknownError,
            KeyringFault::Dismissed => SecretStorageError::AccessDenied,
            KeyringFault::BusIo => SecretStorageError::IoError,
            KeyringFault::BusOther => SecretStorageError::UnknownError,
        }
    }

    /// The sentence that tells the user of this error.
    pub fn message(&self) -> (r: &'static str)
        ensures
            r@ == match *self {
                SecretStorageError::AccessDenied => "Access to the secret storage was denied"@,
                SecretStorageError::SerializationError => "Serialization error"@,
                SecretStorageError::IoError => "I/O error"@,
                SecretStorageError::UnknownError => "Unknown error"@,
                SecretStorageError::NotUnique => "Not unique"@,
            },
    {
        match self {
            SecretStorageError::AccessDenied => "Access to the secret storage was denied",
            SecretStorageError::SerializationError => "Serialization error",
            SecretStorageError::IoError => "I/O error",
            SecretStorageError::UnknownError => "Unknown error",
            SecretStorageError::NotUnique => "Not unique",
        }
    }
}

/// Which of the items that a search for one account's credentials found is to
/// be read: none where nothing was found, the only one where one was found,
/// and an error where the account is stored more than once.
pub fn pick_unique(found: usize) -> (r: Result<Option<usize>, SecretStorageError>)
    ensures
        r == if found == 0 {
            Ok::<Option<usize>, SecretStorageError>(None)
        } else if found > 1 {
            Err::<Option<usize>, SecretStorageError>(SecretStorageError::NotUnique)
        } else {
            Ok::<Option<usize>, SecretStorageError>(Some(0usize))
        },
{
    if found == 0 {
        Ok(None)
    } else if found > 1 {
        Err(SecretStorageError::NotUnique)
    } else {
        Ok(Some(0))
    }
}

} // verus!
