//! The SSH side of a GTP session: the command line that starts the engine on the server,
//! how the channel's output is cut into lines, and the reason given when the channel closes.
use vstd::prelude::*;
use crate::error::AppError;
use crate::profile::{ProfileModel, ServerProfile};
use crate::text::{chars_of, decimal, push_char, push_decimal, push_str, string_from, trim, trim_range};

verus! {

/// Seconds between attempts to reconnect an SSH transport.
pub const RECONNECT_INTERVAL_SECS: u64 = 10;

/// How many bytes of the engine's stderr are kept to explain a disconnection.
pub const STDERR_DIAG_LIMIT: usize = 2000;

/// Whether a session whose transport dropped tries to reconnect.
#[derive(Debug, Clone, Copy, PartialEq, Eq, Structural)]
pub enum ReconnectPolicy {
    /// Stay disconnected (no automatic reconnection).
    Never,
    /// Try again every `interval_secs` seconds.
    Retry { interval_secs: u64 },
}

/// What the line source of a transport reports.
pub enum TransportEvent {
    /// One line, without its line end.
    Line(String),
    /// The transport closed; no more lines follow.
    Closed { reason: String },
}

/// What to do with the host key a server presents.
#[derive(Debug)]
pub enum HostKeyDecision {
    /// The key is the one trusted before: go on.
    Accept,
    /// No key was trusted for this profile yet: go on, and store this key's fingerprint
    /// (trust on first use).
    TrustAndStore,
    /// The key differs from the one trusted before: refuse the connection with this error.
    Reject(AppError),
}

/// The SSH handler of a connection: it knows the host and the fingerprint trusted for the
/// profile, if any.
pub struct ClientHandler {
    pub host: String,
    pub stored_fingerprint: Option<String>,
}

impl ClientHandler {
    /// Decides on the host key whose fingerprint is `presented`: the first key of a profile
    /// is trusted and stored; later, the same fingerprint is accepted and any other is
    /// refused with `HostKeyMismatch`.
    pub fn check_server_key(&self, presented: &str) -> (r: HostKeyDecision)
        ensures
            match self.stored_fingerprint {
                None => r is TrustAndStore,
                Some(f) => if f@ == presented@ {
                    r is Accept
                } else {
                    r matches HostKeyDecision::Reject(AppError::HostKeyMismatch { host, expected, actual })
                        && host@ == self.host@ && expected@ == f@ && actual@ == presented@
                },
            },
    {
        match &self.stored_fingerprint {
            None => HostKeyDecision::TrustAndStore,
            Some(f) => {
                let p = presented.to_owned();
                if *f == p {
                    HostKeyDecision::Accept
                } else {
                    HostKeyDecision::Reject(
                        AppError::HostKeyMismatch { host: self.host.clone(), expected: f.clone(), actual: p },
                    )
                }
            },
        }
    }
}

/// A transport that runs the engine command of an SSH profile on its server.
pub struct SshTransport {
    profile: ServerProfile,
}

impl SshTransport {
    /// The transport for `profile`.
    pub fn new(profile: ServerProfile) -> (r: SshTransport)
        ensures
            r.profile_model() == profile@,
    {
        SshTransport { profile }
    }

    /// The profile this transport connects to.
    pub closed spec fn profile_model(&self) -> ProfileModel {
        self.profile@
    }

    /// The profile this transport connects to.
    pub fn profile(&self) -> (r: &ServerProfile)
        ensures
            r@ == self.profile_model(),
    {
        &self.profile
    }

    /// The id of the profile, used to tell connection events apart.
    pub fn profile_id(&self) -> (r: &str)
        ensures
            r@ == self.profile_model().id,
    {
        self.profile.id.as_str()
    }

    /// SSH connections are retried every [`RECONNECT_INTERVAL_SECS`] seconds.
    pub fn reconnect_policy(&self) -> (r: ReconnectPolicy)
        ensures
            r == (ReconnectPolicy::Retry { interval_secs: RECONNECT_INTERVAL_SECS }),
    {
        ReconnectPolicy::Retry { interval_secs: RECONNECT_INTERVAL_SECS }
    }
}

/// The body of a single-quoted shell word for `s`: each `'` becomes `'\''`.
pub open spec fn quote_body(s: Seq<char>) -> Seq<char>
    decreases s.len(),
{
    if s.len() == 0 {
        Seq::empty()
    } else if s.last() == '\'' {
        quote_body(s.drop_last()) + seq!['\'', '\\', '\'', '\'']
    } else {
        quote_body(s.drop_last()).push(s.last())
    }
}

/// `s` as one single-quoted shell word.
pub open spec fn shell_quoted(s: Seq<char>) -> Seq<char> {
    seq!['\''] + quote_body(s) + seq!['\'']
}

/// Quotes `s` for a `sh` command line: inside single quotes nothing is special, so only
/// `'` itself is written as `'\''` (close the quotes, an escaped quote, open them again).
pub fn shell_quote(s: &str) -> (r: String)
    ensures
        r@ == shell_quoted(s@),
{
    let cs = chars_of(s);
    let mut out = String::new();
    push_char(&mut out, '\'');
    let mut i: usize = 0;
    while i < cs.len()
        invariant
            i <= cs@.len(),
            cs@ == s@,
            out@ == seq!['\''] + quote_body(cs@.take(i as int)),
        decreases cs@.len() - i,
    {
        proof {
            assert(cs@.take(i + 1).drop_last() =~= cs@.take(i as int));
            assert(cs@.take(i + 1).last() == cs@[i as int]);
        }
        if cs[i] == '\'' {
            push_char(&mut out, '\'');
            push_char(&mut out, '\\');
            push_char(&mut out, '\'');
            push_char(&mut out, '\'');
        } else {
            push_char(&mut out, cs[i]);
        }
        i += 1;
        assert(out@ =~= seq!['\''] + quote_body(cs@.take(i as int)));
    }
    push_char(&mut out, '\'');
    assert(cs@.take(cs@.len() as int) =~= cs@);
    assert(out@ =~= shell_quoted(s@));
    out
}

/// The script run on the server: the usual user bin directories are put in front of `PATH`
/// (an SSH `exec` reads no login shell settings), then the engine command.
pub open spec fn engine_script(engine_command: Seq<char>) -> Seq<char> {
    "export PATH=\"$HOME/.local/bin:$HOME/bin:$PATH\"; "@ + engine_command
}

/// The command executed on the server: the engine script run by a login shell.
pub fn login_shell_command(engine_command: &str) -> (r: String)
    ensures
        r@ == "sh -lc "@ + shell_quoted(engine_script(engine_command@)),
{
    let mut script = String::new();
    push_str(&mut script, "export PATH=\"$HOME/.local/bin:$HOME/bin:$PATH\"; ");
    push_str(&mut script, engine_command);
    let mut out = String::new();
    push_str(&mut out, "sh -lc ");
    let q = shell_quote(script.as_str());
    push_str(&mut out, q.as_str());
    out
}

/// The reason shown when the channel closes: the exit code and the (trimmed) stderr of the
/// remote command come first when there are any, so that a wrong engine command can be
/// told from a network failure.
pub open spec fn disconnect_reason_text(exit_status: Option<u32>, stderr_diag: Seq<char>) -> Seq<char> {
    let t = trim(stderr_diag);
    match exit_status {
        Some(code) => if t.len() > 0 {
            "원격 명령이 종료됨 (exit code "@ + decimal(code as nat) + "): "@ + t
        } else {
            "원격 명령이 종료됨 (exit code "@ + decimal(code as nat) + ")"@
        },
        None => if t.len() > 0 {
            "연결이 끊겼습니다: "@ + t
        } else {
            "연결이 끊겼습니다"@
        },
    }
}

/// Sums up why the channel closed (see [`disconnect_reason_text`]).
pub fn disconnect_reason(exit_status: Option<u32>, stderr_diag: &str) -> (r: String)
    ensures
        r@ == disconnect_reason_text(exit_status, stderr_diag@),
{
    let cs = chars_of(stderr_diag);
    assert(cs@.subrange(0, cs@.len() as int) =~= cs@);
    let (lo, hi) = trim_range(&cs, 0, cs.len());
    let trimmed = string_from(&cs, lo, hi);
    let mut out = String::new();
    match exit_status {
        Some(code) => {
            push_str(&mut out, "원격 명령이 종료됨 (exit code ");
            push_decimal(&mut out, code as u64);
            if lo < hi {
                push_str(&mut out, "): ");
                push_str(&mut out, trimmed.as_str());
            } else {
                push_str(&mut out, ")");
            }
        },
        None => {
            if lo < hi {
                push_str(&mut out, "연결이 끊겼습니다: ");
                push_str(&mut out, trimmed.as_str());
            } else {
                push_str(&mut out, "연결이 끊겼습니다");
            }
        },
    }
    out
}

/// Adds engine stderr output to the diagnostics kept so far, unless they already hold
/// [`STDERR_DIAG_LIMIT`] bytes or more (`diag_bytes` is their length in bytes).
pub fn append_stderr(diag: &mut String, diag_bytes: usize, text: &str)
    ensures
        final(diag)@ == if diag_bytes < STDERR_DIAG_LIMIT {
            old(diag)@ + text@
        } else {
            old(diag)@
        },
{
    if diag_bytes < STDERR_DIAG_LIMIT {
        push_str(diag, text);
    }
}

/// `s` without the `\r` characters at its end.
pub open spec fn strip_cr(s: Seq<char>) -> Seq<char>
    decreases s.len(),
{
    if s.len() > 0 && s.last() == '\r' {
        strip_cr(s.drop_last())
    } else {
        s
    }
}

/// The position of the first `\n` of `s` from `k` on.
pub open spec fn first_newline(s: Seq<char>, k: int) -> Option<int>
    decreases s.len() - k,
{
    if k < 0 || k >= s.len() {
        None
    } else if s[k] == '\n' {
        Some(k)
    } else {
        first_newline(s, k + 1)
    }
}

/// The complete lines at the front of `s` (each without its `\n` and trailing `\r`s) and
/// what is left after the last `\n`.
pub open spec fn split_lines(s: Seq<char>) -> (Seq<Seq<char>>, Seq<char>)
    decreases s.len(),
{
    match first_newline(s, 0) {
        None => (Seq::empty(), s),
        Some(p) => {
            if 0 <= p < s.len() {
                let rest = split_lines(s.subrange(p + 1, s.len() as int));
                (seq![strip_cr(s.subrange(0, p))] + rest.0, rest.1)
            } else {
                (Seq::empty(), s)
            }
        },
    }
}

proof fn lemma_first_newline_bounds(s: Seq<char>, k: int)
    requires
        0 <= k,
    ensures
        match first_newline(s, k) {
            Some(p) => k <= p < s.len() && s[p] == '\n' && forall|i: int| k <= i < p ==> #[trigger] s[i] != '\n',
            None => forall|i: int| k <= i < s.len() ==> #[trigger] s[i] != '\n',
        },
    decreases s.len() - k,
{
    if k < s.len() && s[k] != '\n' {
        lemma_first_newline_bounds(s, k + 1);
    }
}

/// The range of `cs[lo..hi]` without its trailing `\r`s.
fn strip_cr_range(cs: &Vec<char>, lo: usize, hi: usize) -> (r: usize)
    requires
        lo <= hi <= cs@.len(),
    ensures
        lo <= r <= hi,
        cs@.subrange(lo as int, r as int) == strip_cr(cs@.subrange(lo as int, hi as int)),
{
    let mut e = hi;
    while e > lo && cs[e - 1] == '\r'
        invariant
            lo <= e <= hi <= cs@.len(),
            strip_cr(cs@.subrange(lo as int, e as int)) == strip_cr(cs@.subrange(lo as int, hi as int)),
        decreases e,
    {
        assert(cs@.subrange(lo as int, e as int).drop_last() =~= cs@.subrange(lo as int, e - 1));
        e -= 1;
    }
    proof {
        let t = cs@.subrange(lo as int, e as int);
        if t.len() > 0 {
            assert(t.last() == cs@[e - 1]);
        }
    }
    e
}

/// Takes the complete lines off the front of the channel buffer `buffer`: each without its
/// `\n` and trailing `\r`s, in order; what follows the last `\n` stays in the buffer.
pub fn take_lines(buffer: &mut String) -> (r: Vec<String>)
    ensures
        r@.map_values(|l: String| l@) == split_lines(old(buffer)@).0,
        final(buffer)@ == split_lines(old(buffer)@).1,
{
    let cs = chars_of(buffer.as_str());
    let ghost s = cs@;
    let n = cs.len();
    let mut out: Vec<String> = Vec::new();
    let mut start: usize = 0;
    let mut i: usize = 0;
    assert(s.subrange(0, n as int) =~= s);
    while i < n
        invariant
            n == cs@.len(),
            s == cs@,
            start <= i <= n,
            forall|k: int| start <= k < i ==> #[trigger] cs@[k] != '\n',
            out@.map_values(|l: String| l@) + split_lines(cs@.subrange(start as int, n as int)).0 == split_lines(s).0,
            split_lines(cs@.subrange(start as int, n as int)).1 == split_lines(s).1,
        decreases n - i,
    {
        if cs[i] == '\n' {
            let ghost t = cs@.subrange(start as int, n as int);
            proof {
                lemma_first_newline_bounds(t, 0);
                assert forall|k: int| 0 <= k < i - start implies #[trigger] t[k] != '\n' by {
                    assert(t[k] == cs@[start + k]);
                }
                assert(t[i - start] == '\n');
                if first_newline(t, 0) != Some(i - start) {
                    match first_newline(t, 0) {
                        Some(p) => {
                            assert(t[p] == '\n');
                        },
                        None => {
                            assert(t[i - start] != '\n');
                        },
                    }
                }
                assert(t.subrange(0, i - start) =~= cs@.subrange(start as int, i as int));
                assert(t.subrange(i - start + 1, t.len() as int) =~= cs@.subrange(i + 1, n as int));
            }
            let e = strip_cr_range(&cs, start, i);
            let line = string_from(&cs, start, e);
            let ghost before = out@;
            out.push(line);
            proof {
                assert(out@.map_values(|l: String| l@) =~= before.map_values(|l: String| l@).push(line@));
                assert(out@.map_values(|l: String| l@) + split_lines(cs@.subrange(i + 1, n as int)).0
                    =~= before.map_values(|l: String| l@) + split_lines(t).0);
            }
            start = i + 1;
        }
        i += 1;
    }
    let ghost t = cs@.subrange(start as int, n as int);
    proof {
        lemma_first_newline_bounds(t, 0);
        assert forall|k: int| 0 <= k < t.len() implies #[trigger] t[k] != '\n' by {
            assert(t[k] == cs@[start + k]);
        }
        if first_newline(t, 0) is Some {
            let p = first_newline(t, 0)->0;
            assert(t[p] == '\n');
        }
        assert(out@.map_values(|l: String| l@) =~= out@.map_values(|l: String| l@) + Seq::<Seq<char>>::empty());
    }
    let rest = string_from(&cs, start, n);
    *buffer = rest;
    out
}

/// `s` in front of the text of `o`.
pub open spec fn prepend(s: Seq<char>, o: Option<Seq<char>>) -> Option<Seq<char>> {
    match o {
        Some(r) => Some(s + r),
        None => None,
    }
}

/// The text `sh` reads from the word `w`, `quoted` when it starts inside single quotes:
/// outside quotes a `'` opens a quoted part and `\` takes the next character as it is;
/// inside, every character up to the closing `'` is taken as it is. `None` when the word
/// ends inside quotes or after a lone `\`, or holds a character `sh` would treat otherwise.
pub open spec fn sh_read(w: Seq<char>, quoted: bool) -> Option<Seq<char>>
    decreases w.len(),
{
    if w.len() == 0 {
        if quoted {
            None
        } else {
            Some(Seq::empty())
        }
    } else if quoted {
        if w[0] == '\'' {
            sh_read(w.drop_first(), false)
        } else {
            prepend(seq![w[0]], sh_read(w.drop_first(), true))
        }
    } else if w[0] == '\'' {
        sh_read(w.drop_first(), true)
    } else if w[0] == '\\' && w.len() >= 2 {
        prepend(seq![w[1]], sh_read(w.subrange(2, w.len() as int), false))
    } else {
        None
    }
}

proof fn lemma_quote_body_read(s: Seq<char>, t: Seq<char>)
    ensures
        sh_read(quote_body(s) + t, true) == prepend(s, sh_read(t, true)),
    decreases s.len(),
{
    if s.len() == 0 {
        assert(quote_body(s) + t =~= t);
        match sh_read(t, true) {
            Some(r) => assert(s + r =~= r),
            None => {},
        }
    } else {
        let s1 = s.drop_last();
        let c = s.last();
        let piece = if c == '\'' {
            seq!['\'', '\\', '\'', '\'']
        } else {
            seq![c]
        };
        assert(quote_body(s) == quote_body(s1) + piece);
        assert(quote_body(s) + t =~= quote_body(s1) + (piece + t));
        lemma_quote_body_read(s1, piece + t);
        if c == '\'' {
            let w0 = piece + t;
            let w1 = seq!['\\', '\'', '\''] + t;
            let w2 = seq!['\''] + t;
            assert(w0.drop_first() =~= w1);
            assert(w1.subrange(2, w1.len() as int) =~= w2);
            assert(w2.drop_first() =~= t);
            assert(w0[0] == '\'');
            assert(w1[0] == '\\' && w1[1] == '\'' && w1.len() >= 2);
            assert(w2[0] == '\'');
            assert(sh_read(w2, false) == sh_read(t, true));
            assert(sh_read(w1, false) == prepend(seq!['\''], sh_read(w2, false)));
            assert(sh_read(w0, true) == sh_read(w1, false));
        } else {
            assert((piece + t).drop_first() =~= t);
            assert(sh_read(piece + t, true) == prepend(seq![c], sh_read(t, true)));
        }
        match sh_read(t, true) {
            Some(r) => {
                assert(s1 + (seq![c] + r) =~= s + r);
            },
            None => {},
        }
    }
}

/// Quoting a text for `sh` loses nothing: `sh` reads the quoted word back as the text itself.
pub proof fn law_shell_quote_reads_back(s: Seq<char>)
    ensures
        sh_read(shell_quoted(s), false) == Some(s),
{
    let w = shell_quoted(s);
    let close = seq!['\''];
    assert(w.drop_first() =~= quote_body(s) + close);
    assert(w[0] == '\'');
    assert(sh_read(w, false) == sh_read(w.drop_first(), true));
    lemma_quote_body_read(s, close);
    assert(close.drop_first() =~= Seq::<char>::empty());
    assert(close[0] == '\'');
    assert(sh_read(close, true) == sh_read(close.drop_first(), false));
    assert(sh_read(close, true) == Some(Seq::<char>::empty()));
    assert(s + Seq::<char>::empty() =~= s);
}

/// What arrives on the SSH channel, as the pump reads it.
pub enum ChannelEvent {
    /// Output of the engine (its text, decoded).
    Stdout(String),
    /// Error output of the engine: its text and its length in bytes.
    Stderr { text: String, bytes: usize },
    /// The remote command ended with this exit code.
    ExitStatus(u32),
    /// The channel reached its end or was closed.
    End,
    /// Anything else: ignored.
    Other,
}

/// The state of the channel pump: the output not yet ended by a line end, the engine's
/// error output kept for diagnosis (and its length in bytes), and the exit code if one came.
pub struct ChannelPump {
    pub line_buffer: String,
    pub stderr_diag: String,
    pub stderr_bytes: usize,
    pub exit_status: Option<u32>,
}

/// The events `v` are the lines `ls`, in order.
pub open spec fn line_events(v: Seq<TransportEvent>, ls: Seq<Seq<char>>) -> bool {
    v.len() == ls.len() && forall|i: int| 0 <= i < v.len() ==> (#[trigger] v[i] matches TransportEvent::Line(l) && l@ == ls[i])
}

impl ChannelPump {
    /// A pump that has read nothing.
    pub fn new() -> (r: ChannelPump)
        ensures
            r.line_buffer@.len() == 0,
            r.stderr_diag@.len() == 0,
            r.stderr_bytes == 0,
            r.exit_status is None,
    {
        ChannelPump { line_buffer: String::new(), stderr_diag: String::new(), stderr_bytes: 0, exit_status: None }
    }

    /// Handles one channel message and gives the transport events it leads to: output is cut
    /// into complete lines, error output is kept while under [`STDERR_DIAG_LIMIT`] bytes, the
    /// exit code is recorded, and the end of the channel gives `Closed` with its reason.
    pub fn step(&mut self, event: ChannelEvent) -> (r: Vec<TransportEvent>)
        ensures
            match event {
                ChannelEvent::Stdout(t) => line_events(r@, split_lines(old(self).line_buffer@ + t@).0)
                    && final(self).line_buffer@ == split_lines(old(self).line_buffer@ + t@).1
                    && final(self).stderr_diag@ == old(self).stderr_diag@ && final(self).stderr_bytes
                    == old(self).stderr_bytes && final(self).exit_status == old(self).exit_status,
                ChannelEvent::Stderr { text, bytes } => r@.len() == 0 && final(self).line_buffer@
                    == old(self).line_buffer@ && final(self).exit_status == old(self).exit_status && if old(
                    self,
                ).stderr_bytes < STDERR_DIAG_LIMIT {
                    final(self).stderr_diag@ == old(self).stderr_diag@ + text@ && final(self).stderr_bytes == (
                    if old(self).stderr_bytes + bytes <= usize::MAX {
                        old(self).stderr_bytes + bytes
                    } else {
                        usize::MAX as int
                    })
                } else {
                    final(self).stderr_diag@ == old(self).stderr_diag@ && final(self).stderr_bytes == old(
                        self,
                    ).stderr_bytes
                },
                ChannelEvent::ExitStatus(code) => r@.len() == 0 && final(self).exit_status == Some(code)
                    && final(self).line_buffer@ == old(self).line_buffer@ && final(self).stderr_diag@
                    == old(self).stderr_diag@ && final(self).stderr_bytes == old(self).stderr_bytes,
                ChannelEvent::End => r@.len() == 1 && (r@[0] matches TransportEvent::Closed { reason } && reason@
                    == disconnect_reason_text(old(self).exit_status, old(self).stderr_diag@)),
                ChannelEvent::Other => r@.len() == 0 && final(self).line_buffer@ == old(self).line_buffer@
                    && final(self).stderr_diag@ == old(self).stderr_diag@ && final(self).stderr_bytes
                    == old(self).stderr_bytes && final(self).exit_status == old(self).exit_status,
            },
    {
        let mut out: Vec<TransportEvent> = Vec::new();
        match event {
            ChannelEvent::Stdout(t) => {
                push_str(&mut self.line_buffer, t.as_str());
                let lines = take_lines(&mut self.line_buffer);
                let ghost ls = lines@.map_values(|l: String| l@);
                let mut k: usize = 0;
                while k < lines.len()
                    invariant
                        k <= lines@.len(),
                        ls == lines@.map_values(|l: String| l@),
                        out@.len() == k,
                        forall|i: int| 0 <= i < k ==> (#[trigger] out@[i] matches TransportEvent::Line(l) && l@ == ls[i]),
                    decreases lines@.len() - k,
                {
                    out.push(TransportEvent::Line(lines[k].clone()));
                    k += 1;
                }
            },
            ChannelEvent::Stderr { text, bytes } => {
                if self.stderr_bytes < STDERR_DIAG_LIMIT {
                    push_str(&mut self.stderr_diag, text.as_str());
                    self.stderr_bytes = if bytes <= usize::MAX - self.stderr_bytes {
                        self.stderr_bytes + bytes
                    } else {
                        usize::MAX
                    };
                }
            },
            ChannelEvent::ExitStatus(code) => {
                self.exit_status = Some(code);
            },
            ChannelEvent::End => {
                let reason = disconnect_reason(self.exit_status, self.stderr_diag.as_str());
                out.push(TransportEvent::Closed { reason });
            },
            ChannelEvent::Other => {},
        }
        out
    }
}

} // verus!
