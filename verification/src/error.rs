//! The application's error type: one variant per kind of failure, each with the message
//! shown to the user.
use vstd::prelude::*;
use crate::text::push_str;

verus! {

/// What went wrong.
#[derive(Debug, Clone)]
pub enum AppError {
    NotConnected,
    SshConnectFailed(String),
    SshAuthFailed(String),
    HostKeyMismatch { host: String, expected: String, actual: String },
    PassphraseUnsupported,
    GtpSendFailed(String),
    ProfileNotFound(String),
    InvalidInput(String),
    Io(String),
    Other(String),
}

/// The name of the variant of `e`, the `kind` tag sent along with the message.
pub open spec fn kind_of(e: AppError) -> Seq<char> {
    match e {
        AppError::NotConnected => "NotConnected"@,
        AppError::SshConnectFailed(_) => "SshConnectFailed"@,
        AppError::SshAuthFailed(_) => "SshAuthFailed"@,
        AppError::HostKeyMismatch { .. } => "HostKeyMismatch"@,
        AppError::PassphraseUnsupported => "PassphraseUnsupported"@,
        AppError::GtpSendFailed(_) => "GtpSendFailed"@,
        AppError::ProfileNotFound(_) => "ProfileNotFound"@,
        AppError::InvalidInput(_) => "InvalidInput"@,
        AppError::Io(_) => "Io"@,
        AppError::Other(_) => "Other"@,
    }
}

/// The message of `e`, as shown to the user.
pub open spec fn message_of(e: AppError) -> Seq<char> {
    match e {
        AppError::NotConnected => "SSH에 연결되어 있지 않습니다"@,
        AppError::SshConnectFailed(m) => m@,
        AppError::SshAuthFailed(m) => m@,
        AppError::HostKeyMismatch { host, expected, actual } => "서버("@ + host@
            + ")가 제시한 SSH host key가 이전에 저장해둔 지문과 다릅니다. 서버를 재설치했거나 IP를 재할당받았다면 설정 화면에서 이 프로필의 host key 신뢰를 초기화한 뒤 다시 연결하세요. 그런 적이 없다면 중간자 공격(MITM)일 수 있으니 연결하지 마세요. (이전 지문: "@
            + expected@ + ", 지금 지문: "@ + actual@ + ")"@,
        AppError::PassphraseUnsupported => "passphrase가 걸린 key는 아직 지원하지 않습니다. passphrase 없는 key를 사용해주세요."@,
        AppError::GtpSendFailed(m) => m@,
        AppError::ProfileNotFound(id) => "존재하지 않는 프로필: "@ + id@,
        AppError::InvalidInput(m) => m@,
        AppError::Io(m) => m@,
        AppError::Other(m) => m@,
    }
}

impl AppError {
    /// The `kind` tag: the variant's name.
    pub fn kind(&self) -> (r: &'static str)
        ensures
            r@ == kind_of(*self),
    {
        match self {
            AppError::NotConnected => "NotConnected",
            AppError::SshConnectFailed(_) => "SshConnectFailed",
            AppError::SshAuthFailed(_) => "SshAuthFailed",
            AppError::HostKeyMismatch { .. } => "HostKeyMismatch",
            AppError::PassphraseUnsupported => "PassphraseUnsupported",
            AppError::GtpSendFailed(_) => "GtpSendFailed",
            AppError::ProfileNotFound(_) => "ProfileNotFound",
            AppError::InvalidInput(_) => "InvalidInput",
            AppError::Io(_) => "Io",
            AppError::Other(_) => "Other",
        }
    }

    /// The message shown to the user.
    pub fn message(&self) -> (r: String)
        ensures
            r@ == message_of(*self),
    {
        let mut out = String::new();
        match self {
            AppError::NotConnected => push_str(&mut out, "SSH에 연결되어 있지 않습니다"),
            AppError::SshConnectFailed(m) => push_str(&mut out, m.as_str()),
            AppError::SshAuthFailed(m) => push_str(&mut out, m.as_str()),
            AppError::HostKeyMismatch { host, expected, actual } => {
                push_str(&mut out, "서버(");
                push_str(&mut out, host.as_str());
                push_str(
                    &mut out,
                    ")가 제시한 SSH host key가 이전에 저장해둔 지문과 다릅니다. 서버를 재설치했거나 IP를 재할당받았다면 설정 화면에서 이 프로필의 host key 신뢰를 초기화한 뒤 다시 연결하세요. 그런 적이 없다면 중간자 공격(MITM)일 수 있으니 연결하지 마세요. (이전 지문: ",
                );
                push_str(&mut out, expected.as_str());
                push_str(&mut out, ", 지금 지문: ");
                push_str(&mut out, actual.as_str());
                push_str(&mut out, ")");
            },
            AppError::PassphraseUnsupported => push_str(
                &mut out,
                "passphrase가 걸린 key는 아직 지원하지 않습니다. passphrase 없는 key를 사용해주세요.",
            ),
            AppError::GtpSendFailed(m) => push_str(&mut out, m.as_str()),
            AppError::ProfileNotFound(id) => {
                push_str(&mut out, "존재하지 않는 프로필: ");
                push_str(&mut out, id.as_str());
            },
            AppError::InvalidInput(m) => push_str(&mut out, m.as_str()),
            AppError::Io(m) => push_str(&mut out, m.as_str()),
            AppError::Other(m) => push_str(&mut out, m.as_str()),
        }
        assert(out@ =~= message_of(*self));
        out
    }
}

} // verus!
