//! Keeping GTP engines in step with the local game tree: the commands that mirror a move,
//! which profile plays each colour, and what to do with an engine's `genmove` reply.
use vstd::prelude::*;
use crate::color::{Color, opposite};
use crate::coords::{from_vertex, to_vertex, vertex_point, vertex_text};
use crate::error::AppError;
use crate::floats::{lower, lower_is};
use crate::game::{GameTree, MoveInfo};
use crate::profile::{opt_view, ProfileKind, ServerProfile};
use crate::text::{chars_of, decimal, push_decimal, push_str, string_from, trim, trim_range};
use crate::tokens::range_is;

verus! {

/// Which profile (by id) plays Black and which plays White on its own; `None` for a colour
/// a person plays.
pub struct EngineAssignment {
    pub black: Option<String>,
    pub white: Option<String>,
}

impl Default for EngineAssignment {
    fn default() -> (r: EngineAssignment)
        ensures
            r.black is None,
            r.white is None,
    {
        EngineAssignment { black: None, white: None }
    }
}

/// The profile assigned to `color` in `a`.
pub open spec fn assigned(a: EngineAssignment, color: Color) -> Option<Seq<char>> {
    match color {
        Color::Black => opt_view(a.black),
        Color::White => opt_view(a.white),
    }
}

/// `id` with the optional assignment `o` cleared when it is `id`.
pub open spec fn cleared(o: Option<Seq<char>>, id: Seq<char>) -> Option<Seq<char>> {
    if o == Some(id) {
        None
    } else {
        o
    }
}

/// The text of an optional string slice.
pub open spec fn opt_str_view(o: Option<&str>) -> Option<Seq<char>> {
    match o {
        Some(s) => Some(s@),
        None => None,
    }
}

impl EngineAssignment {
    /// The profile that plays `color`, if any.
    pub fn profile_for(&self, color: Color) -> (r: Option<&str>)
        ensures
            opt_str_view(r) == assigned(*self, color),
    {
        let slot = match color {
            Color::Black => &self.black,
            Color::White => &self.white,
        };
        match slot {
            Some(s) => Some(s.as_str()),
            None => None,
        }
    }

    /// Gives `color` to the profile `profile_id` (`None`: a person plays it).
    pub fn assign(&mut self, color: Color, profile_id: Option<String>)
        ensures
            assigned(*final(self), color) == opt_view(profile_id),
            assigned(*final(self), opposite(color)) == assigned(*old(self), opposite(color)),
    {
        match color {
            Color::Black => self.black = profile_id,
            Color::White => self.white = profile_id,
        }
    }

    /// Takes both colours away from the profile `profile_id` (it was disconnected).
    pub fn clear_profile(&mut self, profile_id: &str)
        ensures
            assigned(*final(self), Color::Black) == cleared(assigned(*old(self), Color::Black), profile_id@),
            assigned(*final(self), Color::White) == cleared(assigned(*old(self), Color::White), profile_id@),
    {
        let id = profile_id.to_owned();
        let clear_black = match &self.black {
            Some(b) => *b == id,
            None => false,
        };
        if clear_black {
            self.black = None;
        }
        let clear_white = match &self.white {
            Some(w) => *w == id,
            None => false,
        };
        if clear_white {
            self.white = None;
        }
    }
}

/// The colour named `black` or `white`; any other name is refused.
pub fn parse_color(s: &str) -> (r: Result<Color, AppError>)
    ensures
        s@ == "black"@ ==> r == Ok::<Color, AppError>(Color::Black),
        s@ == "white"@ ==> r == Ok::<Color, AppError>(Color::White),
        s@ != "black"@ && s@ != "white"@ ==> (r matches Err(AppError::InvalidInput(m)) && m@ == "알 수 없는 색: "@ + s@),
{
    let cs = chars_of(s);
    proof {
        reveal_strlit("black");
        reveal_strlit("white");
        assert("black"@ =~= seq!['b', 'l', 'a', 'c', 'k']);
        assert("white"@ =~= seq!['w', 'h', 'i', 't', 'e']);
        assert(cs@.subrange(0, cs@.len() as int) =~= cs@);
    }
    if range_is(&cs, 0, cs.len(), &['b', 'l', 'a', 'c', 'k']) {
        Ok(Color::Black)
    } else if range_is(&cs, 0, cs.len(), &['w', 'h', 'i', 't', 'e']) {
        Ok(Color::White)
    } else {
        let mut m = String::new();
        push_str(&mut m, "알 수 없는 색: ");
        push_str(&mut m, s);
        Err(AppError::InvalidInput(m))
    }
}

/// The GTP colour letter of `c`.
pub open spec fn letter(c: Color) -> Seq<char> {
    match c {
        Color::Black => "B"@,
        Color::White => "W"@,
    }
}

/// `play <colour> <vertex>`: mirrors a stone played at `(x, y)`.
pub fn play_command(color: Color, x: usize, y: usize, size: usize) -> (r: String)
    requires
        x < size,
        x < 19,
        y < size,
    ensures
        r@ == "play "@ + letter(color) + " "@ + vertex_text(x as nat, y as nat, size as nat),
{
    let mut out = String::new();
    push_str(&mut out, "play ");
    push_str(&mut out, color.gtp_letter());
    push_str(&mut out, " ");
    let v = to_vertex(x, y, size);
    push_str(&mut out, v.as_str());
    out
}

/// `play <colour> pass`: mirrors a pass.
pub fn pass_command(color: Color) -> (r: String)
    ensures
        r@ == "play "@ + letter(color) + " pass"@,
{
    let mut out = String::new();
    push_str(&mut out, "play ");
    push_str(&mut out, color.gtp_letter());
    push_str(&mut out, " pass");
    out
}

/// The command that replays the move `mv` on a board of `size` lines.
pub open spec fn move_command_text(mv: MoveInfo, size: nat) -> Seq<char> {
    if mv.is_pass {
        "play "@ + letter(mv.color) + " pass"@
    } else {
        "play "@ + letter(mv.color) + " "@ + vertex_text(mv.x as nat, mv.y as nat, size)
    }
}

/// A stone of `mv` lies on a board of `size` lines that GTP can name (at most 19 columns).
pub open spec fn nameable(mv: MoveInfo, size: nat) -> bool {
    mv.is_pass || (mv.x < size && mv.x < 19 && mv.y < size)
}

/// Whether GTP can name the stone of `mv` on a board of `size` lines (see [`nameable`]).
pub fn is_nameable(mv: &MoveInfo, size: usize) -> (r: bool)
    ensures
        r == nameable(*mv, size as nat),
{
    mv.is_pass || (mv.x < size && mv.x < 19 && mv.y < size)
}

/// The command that replays `mv` on the engines: `play <colour> pass` or
/// `play <colour> <vertex>`.
pub fn move_command(mv: MoveInfo, size: usize) -> (r: String)
    requires
        nameable(mv, size as nat),
    ensures
        r@ == move_command_text(mv, size as nat),
{
    if mv.is_pass {
        pass_command(mv.color)
    } else {
        play_command(mv.color, mv.x, mv.y, size)
    }
}

/// The commands that replay the moves `history`, in order.
pub fn history_commands(history: &Vec<MoveInfo>, size: usize) -> (r: Vec<String>)
    requires
        forall|i: int| 0 <= i < history@.len() ==> nameable(#[trigger] history@[i], size as nat),
    ensures
        r@.len() == history@.len(),
        forall|i: int| 0 <= i < r@.len() ==> #[trigger] r@[i]@ == move_command_text(history@[i], size as nat),
{
    let mut out: Vec<String> = Vec::new();
    let mut k: usize = 0;
    while k < history.len()
        invariant
            k <= history@.len(),
            forall|i: int| 0 <= i < history@.len() ==> nameable(#[trigger] history@[i], size as nat),
            out@.len() == k,
            forall|i: int| 0 <= i < k ==> #[trigger] out@[i]@ == move_command_text(history@[i], size as nat),
        decreases history@.len() - k,
    {
        let c = move_command(history[k], size);
        out.push(c);
        k += 1;
    }
    out
}

/// `genmove <colour>`: asks the engine for a move of `color`.
pub fn genmove_command(color: Color) -> (r: String)
    ensures
        r@ == "genmove "@ + letter(color),
{
    let mut out = String::new();
    push_str(&mut out, "genmove ");
    push_str(&mut out, color.gtp_letter());
    out
}

/// `boardsize <size>`.
pub fn boardsize_command(size: usize) -> (r: String)
    ensures
        r@ == "boardsize "@ + decimal(size as nat),
{
    let mut out = String::new();
    push_str(&mut out, "boardsize ");
    push_decimal(&mut out, size as u64);
    out
}

/// `kata-analyze <interval> ownership true`: starts streamed analysis with ownership.
pub fn kata_analyze_command(interval_centiseconds: u32) -> (r: String)
    ensures
        r@ == "kata-analyze "@ + decimal(interval_centiseconds as nat) + " ownership true"@,
{
    let mut out = String::new();
    push_str(&mut out, "kata-analyze ");
    push_decimal(&mut out, interval_centiseconds as u64);
    push_str(&mut out, " ownership true");
    out
}

/// `max_visits <n>`: the extension command of the engine on this device.
pub fn max_visits_command(max_visits: u32) -> (r: String)
    ensures
        r@ == "max_visits "@ + decimal(max_visits as nat),
{
    let mut out = String::new();
    push_str(&mut out, "max_visits ");
    push_decimal(&mut out, max_visits as u64);
    out
}

/// What an engine answered to `genmove`.
#[derive(Debug, Clone, Copy, PartialEq, Eq, Structural)]
pub enum GenmoveReply {
    Resign,
    Pass,
    /// A stone at this point.
    Move(usize, usize),
    /// An error reply (`? ...`) or a vertex that names no point of the board.
    Unusable,
}

/// What the `genmove` reply `resp` says on a board of `size` lines: the reply is trimmed, must
/// start with `=`, and what follows (trimmed) is `resign` or `pass` in any case, or a vertex.
pub open spec fn genmove_reply_of(resp: Seq<char>, size: nat) -> GenmoveReply {
    let t = trim(resp);
    if t.len() == 0 || t[0] != '=' {
        GenmoveReply::Unusable
    } else {
        let body = trim(t.drop_first());
        if lower(body) == seq!['r', 'e', 's', 'i', 'g', 'n'] {
            GenmoveReply::Resign
        } else if lower(body) == seq!['p', 'a', 's', 's'] {
            GenmoveReply::Pass
        } else {
            match vertex_point(body, size) {
                Some((x, y)) => GenmoveReply::Move(x as usize, y as usize),
                None => GenmoveReply::Unusable,
            }
        }
    }
}

/// Reads the engine's reply to `genmove` (see [`genmove_reply_of`]).
pub fn read_genmove_reply(resp: &str, size: usize) -> (r: GenmoveReply)
    ensures
        r == genmove_reply_of(resp@, size as nat),
{
    let cs = chars_of(resp);
    assert(cs@.subrange(0, cs@.len() as int) =~= cs@);
    let (lo, hi) = trim_range(&cs, 0, cs.len());
    if lo == hi || cs[lo] != '=' {
        return GenmoveReply::Unusable;
    }
    let ghost t = cs@.subrange(lo as int, hi as int);
    assert(t.drop_first() =~= cs@.subrange(lo + 1, hi as int));
    let (a, b) = trim_range(&cs, lo + 1, hi);
    if lower_is(&cs, a, b, &['r', 'e', 's', 'i', 'g', 'n']) {
        return GenmoveReply::Resign;
    }
    if lower_is(&cs, a, b, &['p', 'a', 's', 's']) {
        return GenmoveReply::Pass;
    }
    let body = string_from(&cs, a, b);
    match from_vertex(body.as_str(), size) {
        Some((x, y)) => GenmoveReply::Move(x, y),
        None => GenmoveReply::Unusable,
    }
}

/// What to do after an engine's `genmove` reply has been applied.
#[derive(Debug, Clone, Copy, PartialEq, Eq, Structural)]
pub enum EngineStep {
    /// The engine resigned; the colour is the side that resigned.
    Resigned(Color),
    /// The reply was played: ask the engine of the next side, if any.
    Continue,
    /// The reply could not be played: stop asking.
    Stop,
}

/// Applies an engine's `genmove` reply to the game: a pass is passed, a stone played
/// (refused when the point is taken), a resignation reported for the side to move.
pub fn apply_genmove_reply(game: &mut GameTree, reply: GenmoveReply) -> (r: EngineStep)
    requires
        old(game).wf(),
        old(game)@.nodes.len() < u32::MAX,
    ensures
        final(game).wf(),
        match reply {
            GenmoveReply::Resign => r == EngineStep::Resigned(old(game)@.cur().next_turn) && final(game)@
                == old(game)@,
            GenmoveReply::Pass => r == EngineStep::Continue && final(game)@ == old(game)@.play(
                MoveInfo { x: 0, y: 0, color: old(game)@.cur().next_turn, is_pass: true },
            ),
            GenmoveReply::Move(x, y) => if old(game)@.can_play(x, y) {
                r == EngineStep::Continue && final(game)@ == old(game)@.play(
                    MoveInfo { x, y, color: old(game)@.cur().next_turn, is_pass: false },
                )
            } else {
                r == EngineStep::Stop && final(game)@ == old(game)@
            },
            GenmoveReply::Unusable => r == EngineStep::Stop && final(game)@ == old(game)@,
        },
{
    match reply {
        GenmoveReply::Resign => {
            let turn = game.snapshot().current_turn;
            EngineStep::Resigned(turn)
        },
        GenmoveReply::Pass => {
            game.pass_turn();
            EngineStep::Continue
        },
        GenmoveReply::Move(x, y) => {
            if game.confirm_move(x, y) {
                EngineStep::Continue
            } else {
                EngineStep::Stop
            }
        },
        GenmoveReply::Unusable => EngineStep::Stop,
    }
}

/// How to reach a profile's engine.
#[derive(Debug, Clone, Copy, PartialEq, Eq, Structural)]
pub enum ConnectPlan {
    /// The profile is connected already: nothing to do.
    AlreadyConnected,
    /// Open an SSH transport to the profile's server.
    Ssh,
    /// Open the engine on this device.
    Local,
}

/// Decides how to connect profile `profile_id`: nothing when it is connected, refused when
/// it is unknown or its key needs a passphrase, otherwise by the profile's kind.
pub fn connect_plan(connected: bool, profile: Option<&ServerProfile>, profile_id: &str) -> (r: Result<ConnectPlan, AppError>)
    ensures
        connected ==> r == Ok::<ConnectPlan, AppError>(ConnectPlan::AlreadyConnected),
        !connected ==> match profile {
            None => r matches Err(AppError::ProfileNotFound(m)) && m@ == profile_id@,
            Some(p) => if p.has_passphrase {
                r matches Err(AppError::PassphraseUnsupported)
            } else {
                r == Ok::<ConnectPlan, AppError>(
                    match p.kind {
                        ProfileKind::Ssh => ConnectPlan::Ssh,
                        ProfileKind::Local => ConnectPlan::Local,
                    },
                )
            },
        },
{
    if connected {
        return Ok(ConnectPlan::AlreadyConnected);
    }
    match profile {
        None => Err(AppError::ProfileNotFound(profile_id.to_owned())),
        Some(p) => {
            if p.has_passphrase {
                Err(AppError::PassphraseUnsupported)
            } else {
                match p.kind {
                    ProfileKind::Ssh => Ok(ConnectPlan::Ssh),
                    ProfileKind::Local => Ok(ConnectPlan::Local),
                }
            }
        },
    }
}

/// The texts of a list of strings.
pub open spec fn command_texts(v: Seq<String>) -> Seq<Seq<char>> {
    v.map_values(|c: String| c@)
}

/// The commands that replay the moves `history` on a board of `size` lines.
pub open spec fn replay_texts(history: Seq<MoveInfo>, size: nat) -> Seq<Seq<char>> {
    history.map_values(|m: MoveInfo| move_command_text(m, size))
}

/// The commands that bring a freshly started engine to the state of the game: the board
/// size, an explicit `clear_board` (some engines keep the board on an unchanged size), the
/// komi command (`komi_command`, written by the caller), the transport's own commands
/// (`extra`), then every move from the root.
pub fn resync_commands(size: usize, komi_command: String, extra: Vec<String>, history: &Vec<MoveInfo>) -> (r: Vec<String>)
    requires
        forall|i: int| 0 <= i < history@.len() ==> nameable(#[trigger] history@[i], size as nat),
    ensures
        command_texts(r@) == seq!["boardsize "@ + decimal(size as nat), "clear_board"@, komi_command@]
            + command_texts(extra@) + replay_texts(history@, size as nat),
{
    let mut out: Vec<String> = Vec::new();
    out.push(boardsize_command(size));
    out.push("clear_board".to_owned());
    let ghost komi_text = komi_command@;
    out.push(komi_command);
    let ghost head = command_texts(out@);
    assert(head =~= seq!["boardsize "@ + decimal(size as nat), "clear_board"@, komi_text]);
    let mut k: usize = 0;
    let ghost all_extra = command_texts(extra@);
    while k < extra.len()
        invariant
            k <= extra@.len(),
            command_texts(extra@) == all_extra,
            command_texts(out@) == head + all_extra.take(k as int),
        decreases extra@.len() - k,
    {
        let c = extra[k].clone();
        let ghost before = out@;
        out.push(c);
        proof {
            assert(command_texts(out@) =~= command_texts(before).push(extra@[k as int]@));
            assert(all_extra.take(k + 1) =~= all_extra.take(k as int).push(extra@[k as int]@));
            assert(head + all_extra.take(k + 1) =~= (head + all_extra.take(k as int)).push(extra@[k as int]@));
        }
        k += 1;
    }
    assert(all_extra.take(extra@.len() as int) =~= all_extra);
    let moves = history_commands(history, size);
    let ghost mid = command_texts(out@);
    let mut j: usize = 0;
    while j < moves.len()
        invariant
            j <= moves@.len(),
            moves@.len() == history@.len(),
            forall|i: int| 0 <= i < moves@.len() ==> #[trigger] moves@[i]@ == move_command_text(history@[i], size as nat),
            command_texts(out@) == mid + replay_texts(history@, size as nat).take(j as int),
        decreases moves@.len() - j,
    {
        let c = moves[j].clone();
        let ghost before = out@;
        out.push(c);
        proof {
            let rt = replay_texts(history@, size as nat);
            assert(command_texts(out@) =~= command_texts(before).push(moves@[j as int]@));
            assert(rt.take(j + 1) =~= rt.take(j as int).push(rt[j as int]));
            assert(mid + rt.take(j + 1) =~= (mid + rt.take(j as int)).push(rt[j as int]));
        }
        j += 1;
    }
    assert(replay_texts(history@, size as nat).take(moves@.len() as int) =~= replay_texts(history@, size as nat));
    out
}

/// An engine that answers `genmove` with the vertex of a point is read as playing that
/// point: `= <vertex>` gives `Move(x, y)` for every point of a board of at most 19 lines.
pub proof fn law_genmove_vertex_reply(x: nat, y: nat, size: nat)
    requires
        x < size,
        x < 19,
        y < size,
        size <= usize::MAX,
    ensures
        genmove_reply_of("= "@ + vertex_text(x, y, size), size) == GenmoveReply::Move(x as usize, y as usize),
{
    let v = vertex_text(x, y, size);
    let resp = "= "@ + v;
    reveal_strlit("= ");
    crate::text::lemma_decimal_facts((size - y) as nat);
    let d = decimal((size - y) as nat);
    assert(v =~= seq![crate::coords::column_letter(x)] + d);
    assert(v[0] == crate::coords::column_letter(x));
    assert(v[1] == d[0]);
    assert(v.last() == d.last());
    assert(d.len() > 0);
    assert(crate::text::is_digit(d[0]));
    assert(crate::text::is_digit(d[d.len() - 1]));
    assert(resp[0] == '=');
    assert(resp.last() == v.last());
    assert(crate::text::trim_start(resp) == resp);
    assert(crate::text::trim_end(resp) == resp);
    assert(trim(resp) == resp);
    let rest = resp.drop_first();
    assert(rest =~= seq![' '] + v);
    assert(rest.drop_first() =~= v);
    assert(crate::text::trim_start(rest) == crate::text::trim_start(v));
    assert(crate::text::trim_start(v) == v);
    assert(crate::text::trim_end(v) == v);
    assert(trim(rest) == v);
    assert(lower(v)[1] == v[1]);
    assert(lower(v) != seq!['r', 'e', 's', 'i', 'g', 'n']);
    assert(lower(v) != seq!['p', 'a', 's', 's']);
    crate::coords::law_vertex_roundtrip(x, y, size);
}

/// The analysis sessions: the profile the user chose for analysis, if any, and the profile
/// whose session runs the analysis stream now, if any.
pub struct AnalysisSessions {
    pub engine: Option<String>,
    pub analyzing: Option<String>,
}

impl Default for AnalysisSessions {
    fn default() -> (r: AnalysisSessions)
        ensures
            r.engine is None,
            r.analyzing is None,
    {
        AnalysisSessions { engine: None, analyzing: None }
    }
}

impl AnalysisSessions {
    /// Chooses the profile `id` (or none) for analysis.
    pub fn set_engine(&mut self, id: Option<String>)
        ensures
            opt_view(final(self).engine) == opt_view(id),
            opt_view(final(self).analyzing) == opt_view(old(self).analyzing),
    {
        self.engine = id;
    }

    /// The profile `profile_id` was disconnected: it is no longer the analysis choice.
    pub fn clear_engine_for(&mut self, profile_id: &str)
        ensures
            opt_view(final(self).engine) == cleared(opt_view(old(self).engine), profile_id@),
            opt_view(final(self).analyzing) == opt_view(old(self).analyzing),
    {
        let id = profile_id.to_owned();
        let clear = match &self.engine {
            Some(e) => *e == id,
            None => false,
        };
        if clear {
            self.engine = None;
        }
    }

    /// The session of profile `id` now runs the analysis stream.
    pub fn start(&mut self, id: String)
        ensures
            opt_view(final(self).analyzing) == Some(id@),
            opt_view(final(self).engine) == opt_view(old(self).engine),
    {
        self.analyzing = Some(id);
    }

    /// Stopping the analysis: the profile whose session runs it, which is forgotten, so that
    /// a stopped stream is not stopped twice.
    pub fn stop(&mut self) -> (r: Option<String>)
        ensures
            opt_view(r) == opt_view(old(self).analyzing),
            final(self).analyzing is None,
            opt_view(final(self).engine) == opt_view(old(self).engine),
    {
        let r = self.analyzing.take();
        r
    }

    /// The profile whose session gets the analysis: the chosen one when it is connected
    /// (`chosen_connected`), else the one assigned to the side to move when it is connected,
    /// else `any` connected profile.
    pub fn pick(&self, chosen_connected: bool, assigned: Option<String>, assigned_connected: bool, any: Option<String>) -> (r: Option<String>)
        ensures
            opt_view(r) == if self.engine is Some && chosen_connected {
                opt_view(self.engine)
            } else if assigned is Some && assigned_connected {
                opt_view(assigned)
            } else {
                opt_view(any)
            },
    {
        match &self.engine {
            Some(e) => {
                if chosen_connected {
                    return Some(e.clone());
                }
            },
            None => {},
        }
        match assigned {
            Some(a) => {
                if assigned_connected {
                    return Some(a);
                }
            },
            None => {},
        }
        any
    }
}

proof fn lemma_reply_word(w: Seq<char>, n: nat)
    requires
        w.len() > 0,
        !crate::text::is_ws(w[0]),
        !crate::text::is_ws(w.last()),
    ensures
        trim(trim("= "@ + w).drop_first()) == w,
        trim("= "@ + w).len() > 0 && trim("= "@ + w)[0] == '=',
{
    reveal_strlit("= ");
    let resp = "= "@ + w;
    assert(resp[0] == '=');
    assert(resp.last() == w.last());
    assert(crate::text::trim_start(resp) == resp);
    assert(crate::text::trim_end(resp) == resp);
    let rest = resp.drop_first();
    assert(rest =~= seq![' '] + w);
    assert(rest.drop_first() =~= w);
    assert(crate::text::trim_start(rest) == crate::text::trim_start(w));
    assert(crate::text::trim_start(w) == w);
    assert(crate::text::trim_end(w) == w);
}

/// An engine that resigns is read as resigning whatever the letter case of the word:
/// `= resign`, `= RESIGN`, `= Resign` ... all give `Resign`.
pub proof fn law_genmove_resign_any_case(w: Seq<char>, size: nat)
    requires
        lower(w) == seq!['r', 'e', 's', 'i', 'g', 'n'],
    ensures
        genmove_reply_of("= "@ + w, size) == GenmoveReply::Resign,
{
    assert(lower(w).len() == 6);
    assert(lower(w)[0] == 'r');
    assert(lower(w)[5] == 'n');
    lemma_reply_word(w, size);
}

/// An engine that passes is read as passing whatever the letter case of the word.
pub proof fn law_genmove_pass_any_case(w: Seq<char>, size: nat)
    requires
        lower(w) == seq!['p', 'a', 's', 's'],
    ensures
        genmove_reply_of("= "@ + w, size) == GenmoveReply::Pass,
{
    assert(lower(w).len() == 4);
    assert(lower(w)[0] == 'p');
    assert(lower(w)[3] == 's');
    lemma_reply_word(w, size);
}

} // verus!
