use vstd::prelude::*;
use vstd::string::*;

verus! {

/// The error of the key-value backend.
#[verifier::external_type_specification]
#[verifier::external_body]
pub struct ExSledError(sled::Error);

/// The error of the password hash.
#[verifier::external_type_specification]
#[verifier::external_body]
pub struct ExArgon2Error(argon2::Error);

/// The error of the cipher: it carries no information, on purpose.
#[verifier::external_type_specification]
#[verifier::external_body]
pub struct ExAeadError(chacha20poly1305::aead::Error);

/// The error of the compressor.
#[verifier::external_type_specification]
#[verifier::external_body]
pub struct ExIoError(std::io::Error);

/// Error type for errors that are specific for backrub.
///
/// For all practical purposes this will be wrapped into [RepoError].
#[derive(Clone, Debug, PartialEq, Eq, Hash)]
pub enum BackrubError {
    /// A key of the backend is not a 256-bit hash.
    SledKeyLengthError,
    /// A store that has to start empty holds records.
    SledTreeNotEmpty,
    /// A repository was to be created where a database exists already.
    SledDbAlreadyExists(String),
    /// A repository was to be opened where no database exists.
    SledDbDidNotExist(String),
    /// A record does not hash to the key it is stored under.
    SelfTestError,
    /// The manifest does not carry the signature of its key.
    InvalidSignature,
    /// The root of a backup is not a directory.
    BackupRootMustBeDir(String),
}

/// What is wrong with a stored record.
#[derive(Clone, Copy, Debug, PartialEq, Eq, Hash, Structural)]
pub enum CorruptionKind {
    /// The envelope is malformed or does not open under the store's key.
    Envelope,
    /// The envelope opens, but what it holds is no record.
    Record,
    /// A record that another record names is not in its store.
    Missing,
}

/// Encapsulating error type for all possible kinds of errors in backrub.
#[derive(Debug)]
pub enum RepoError {
    /// The cipher rejected a ciphertext, or the envelope round it is malformed.
    InvalidCiphertext,
    /// An error of the library's own rules.
    BackrubError(BackrubError),
    /// The key-value backend failed.
    SledError(sled::Error),
    /// The compressor failed.
    IoError(std::io::Error),
    /// The password hash failed.
    Argon2Error(argon2::Error),
    /// A stored record is damaged; the key of the record where it is known.
    Corruption(CorruptionKind, Option<Vec<u8>>),
    /// Every path has been handed out.
    Exhausted,
    /// A reference count does not fit the machine's word.
    RefCountOverflow,
}

impl BackrubError {
    /// What the error says, in words.
    pub open spec fn message_text(self) -> Seq<char> {
        match self {
            BackrubError::InvalidSignature => "InvalidSignature: a signature is invalid, this could be a sign of tampering"@,
            BackrubError::BackupRootMustBeDir(path) => "BackupRootMustBeDir: the root of any backup must be a directory, got \""@
                + path@ + "\""@,
            BackrubError::SledDbAlreadyExists(path) => "SledDbAlreadyExists: a sled database is already existing at given path \""@
                + path@ + "\""@,
            BackrubError::SledDbDidNotExist(path) => "SledDbDidNotExist: a sled database was NOT existing at given path \""@
                + path@ + "\""@,
            BackrubError::SledTreeNotEmpty => "SledTreeNotEmpty: a sled tree has a length bigger than 0"@,
            BackrubError::SledKeyLengthError => "SledKeyLengthError: a sled key seems to be of wrong length"@,
            BackrubError::SelfTestError => "SelfTestError: a sled key - value pair is corrupted"@,
        }
    }

    /// What the error says, in words.
    pub fn message(&self) -> (text: String)
        ensures
            text@ == self.message_text(),
    {
        match self {
            BackrubError::InvalidSignature => String::from_str(
                "InvalidSignature: a signature is invalid, this could be a sign of tampering",
            ),
            BackrubError::BackupRootMustBeDir(path) => String::from_str(
                "BackupRootMustBeDir: the root of any backup must be a directory, got \"",
            ).concat(path.as_str()).concat("\""),
            BackrubError::SledDbAlreadyExists(path) => String::from_str(
                "SledDbAlreadyExists: a sled database is already existing at given path \"",
            ).concat(path.as_str()).concat("\""),
            BackrubError::SledDbDidNotExist(path) => String::from_str(
                "SledDbDidNotExist: a sled database was NOT existing at given path \"",
            ).concat(path.as_str()).concat("\""),
            BackrubError::SledTreeNotEmpty => String::from_str(
                "SledTreeNotEmpty: a sled tree has a length bigger than 0",
            ),
            BackrubError::SledKeyLengthError => String::from_str(
                "SledKeyLengthError: a sled key seems to be of wrong length",
            ),
            BackrubError::SelfTestError => String::from_str(
                "SelfTestError: a sled key - value pair is corrupted",
            ),
        }
    }
}

impl RepoError {
    /// What the error says, in words: the name of its kind, and what the
    /// error inside it says.
    pub fn message(&self) -> (text: String)
        ensures
            self matches RepoError::BackrubError(e) ==> text@ == "BackrubError: "@
                + e.message_text(),
            self is InvalidCiphertext ==> text@ == "InvalidCiphertext: the cipher rejected a ciphertext"@,
            self is Exhausted ==> text@ == "Exhausted: every path has been handed out"@,
            self is RefCountOverflow ==> text@ == "RefCountOverflow: a reference count does not fit the machine's word"@,
            self matches RepoError::Corruption(kind, _) ==> text@ == (match kind {
                CorruptionKind::Envelope => "Corruption: a stored record does not open under the store's key"@,
                CorruptionKind::Record => "Corruption: a stored record is malformed"@,
                CorruptionKind::Missing => "Corruption: a record that another record names is missing"@,
            }),
    {
        match self {
            RepoError::InvalidCiphertext => String::from_str(
                "InvalidCiphertext: the cipher rejected a ciphertext",
            ),
            RepoError::BackrubError(e) => String::from_str("BackrubError: ").concat(
                e.message().as_str(),
            ),
            RepoError::SledError(e) => String::from_str("SledError: ").concat(
                e.to_string().as_str(),
            ),
            RepoError::IoError(e) => String::from_str("IoError: ").concat(e.to_string().as_str()),
            RepoError::Argon2Error(e) => String::from_str("Argon2Error: ").concat(
                e.to_string().as_str(),
            ),
            RepoError::Corruption(CorruptionKind::Envelope, _) => String::from_str(
                "Corruption: a stored record does not open under the store's key",
            ),
            RepoError::Corruption(CorruptionKind::Record, _) => String::from_str(
                "Corruption: a stored record is malformed",
            ),
            RepoError::Corruption(CorruptionKind::Missing, _) => String::from_str(
                "Corruption: a record that another record names is missing",
            ),
            RepoError::Exhausted => String::from_str("Exhausted: every path has been handed out"),
            RepoError::RefCountOverflow => String::from_str(
                "RefCountOverflow: a reference count does not fit the machine's word",
            ),
        }
    }
}

} // verus!
