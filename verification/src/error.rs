use vstd::prelude::*;

verus! {

/// Every way an operation of the library can fail. Each variant stands for
/// one fixed message; the few that carry data hold the offending value.
#[derive(Debug)]
pub enum Error {
    // framing
    Truncated,
    TrailingBytes,
    OddHex,
    BadHex,
    ExpectedId,
    FrameTooLarge,
    // crypto
    BadVerifyingKey,
    BadSignature,
    SignatureRejected,
    SuiteStub,
    UnknownSuite(u16),
    ZeroSharedSecret,
    BadAeadKey,
    SealFailed,
    OpenFailed,
    NotAnEnvelope,
    BadEnvelopeVersion,
    EnvelopeNotForCredential,
    // model
    UnknownCap(String),
    EmptyCaps,
    NotACredential,
    BadCredentialVersion,
    ParentSignatureRejected,
    PrincipalIdMismatch,
    NotARuntimeFile,
    BadRuntimeVersion,
    RuntimeSecretsMismatch,
    NotAnEvent,
    BadEventVersion,
    SignerDoesNotMatchRuntime,
    RootCannotSign,
    EventSignatureRejected,
    NotAnInvite,
    BadInviteVersion,
    HandleUtf8,
    InviteChannelMismatch,
    InviteSignatureRejected,
    NotAReceiptBundle,
    BadBundleVersion,
    BundleNeedsThreeEvents,
    SignerCredentialMissingFromBundle,
    UnexpectedEventInBundle,
    MissingPropose,
    MissingAccept,
    MissingProceed,
    ProposalIdMismatch,
    AcceptMustBeSecondParty,
    ProceedMustBeProposer,
    ContentHashMismatch,
    // chain
    EmptyChainHasNoTip,
    ForkMoreThanOneTip,
    PrevNotInChain,
    GrantedCapsExceedCredential,
    CredentialRevoked,
    CredentialExpired,
    MemberAddSignerKeyMismatch,
    SponsorNotAMember,
    SponsorKeyMismatch,
    CapabilityDenied,
    SignerNotAMember,
    SignerKeyMismatch,
    UnknownEventType,
    NotAChannelLog,
    BadLogVersion,
    CoveredTipNotInHotLog,
    // packing
    EmptyPackedPayload,
    Lz4DecompressFailed,
    BadPayloadPacking,
    // talk
    UnknownTalkTag,
    TalkSayUtf8,
    // metrics
    MetricsNotUtf8,
    NotAMetricsFile,
    BadMetricsLine,
    BadMetricsField,
    BadTimeMs,
    BadBytes,
    BadSuite,
    BadKind,
    UnknownMetricsField,
    BadMetricsId,
    MissingTimeMs,
    MissingSender,
    MissingRecipient,
    MissingEnv,
    MissingBytes,
    MissingSuite,
    MissingKind,
    MissingChannel,
    // relay client
    RelayPullRejected,
    ShortPullResponse,
    TruncatedPullItem,
    TruncatedPullEnvelope,
    Relay(Vec<u8>),
    // plugin
    BadPluginRequest,
    PluginArgUtf8,
    PluginReplyUtf8,
    // operations
    VaultAlreadyExists,
    NotAVault,
    BadVaultVersion,
    NotAHandleFile,
    BadHandleVersion,
    StaleHandle,
    RuntimeNotFromVault,
    InviteExpired,
    NotAMember,
    EphemeralSendMutatedLog,
    UnknownReceiptAction(String),
    ForkRefusingNewEvent,
    MissingProposal,
    ProposeRequiresContent,
    UnknownProposal,
    ProceedWithoutAccept,
    ShareExpectsOneCounterparty,
    NoShareForRuntime,
    EmptyChain,
    ArchiveAlreadyExists,
    ArchiveRequired,
    SignerCredMissingFromLog,
    UnknownEnvelopeKind,
    ChannelMismatch,
    InviteTokenRejected,
    // node
    BadTtl,
    MissingFlag(String),
    BadPolicyLine(String),
    BadMaxFrameBytes,
    UnknownConfirmGate(String),
    UnknownPolicyKey(String),
    BadRuntimeName,
    ConfirmRequired,
    ConfirmRejected,
    PayloadExceedsMaxFrame,
    // outside the library
    /// The operating system refused a read, a write or a connection; the
    /// message is the one it gave.
    Io(String),
}

} // verus!
