//! The GTP session's reading side: each line an engine sends is either streamed analysis,
//! which is tagged with the node it belongs to, or part of a reply, which is gathered until
//! the blank line that ends it.
use vstd::prelude::*;
use crate::analysis::{analysis_of, kw_info, parse_kata_analyze, is_analysis_line, KataAnalyzeResult};
use crate::color::Color;
use crate::text::{push_char, push_str};

verus! {

/// The game tree node and colour a running analysis stream belongs to, recorded when the
/// stream is started.
#[derive(Debug, Clone, Copy, PartialEq, Eq, Structural)]
pub struct AnalysisContext {
    pub node_id: usize,
    pub for_color: Color,
}

/// The payload of a connection status event: which profile, which status (`connecting`,
/// `connected`, `reconnecting`, `disconnected`, `error`) and why.
pub struct StatusPayload {
    pub profile_id: String,
    pub status: String,
    pub message: Option<String>,
}

/// An analysis line tagged with the node and colour it belongs to.
pub struct KataAnalyzeEvent {
    pub node_id: usize,
    pub for_color: Color,
    pub result: KataAnalyzeResult,
}

/// What one line from the engine leads to.
pub enum LineAction {
    /// An analysis line to pass on.
    Analysis(KataAnalyzeEvent),
    /// Nothing to do: an analysis line with no context or no candidate, or a blank line
    /// with no reply gathered.
    Ignored,
    /// A complete reply, for the oldest command still waiting.
    Response(String),
    /// The line was added to the reply being gathered.
    Gathered,
}

/// `line` is streamed analysis output.
pub open spec fn is_info(line: Seq<char>) -> bool {
    line.len() >= 5 && line.subrange(0, 5) == kw_info()
}

/// The reply text after adding `line` to the gathered text `acc`: lines are joined by `\n`.
pub open spec fn gathered(acc: Seq<char>, line: Seq<char>) -> Seq<char> {
    if acc.len() == 0 {
        line
    } else {
        acc.push('\n') + line
    }
}

/// Handles one line from the engine, given the analysis context and the reply text gathered
/// so far: analysis lines are parsed and tagged (dropped when no context was recorded), a
/// blank line ends the gathered reply, any other line is added to it.
pub fn dispatch_line(ctx: Option<AnalysisContext>, acc: &mut String, line: &str) -> (r: LineAction)
    ensures
        is_info(line@) ==> final(acc)@ == old(acc)@ && match (ctx, analysis_of(line@)) {
            (Some(c), Some(m)) => r matches LineAction::Analysis(ev) && ev.node_id == c.node_id
                && ev.for_color == c.for_color && ev.result@ == m,
            _ => r is Ignored,
        },
        !is_info(line@) && line@.len() == 0 ==> if old(acc)@.len() == 0 {
            r is Ignored && final(acc)@ == old(acc)@
        } else {
            r matches LineAction::Response(text) && text@ == old(acc)@ && final(acc)@.len() == 0
        },
        !is_info(line@) && line@.len() > 0 ==> r is Gathered && final(acc)@ == gathered(old(acc)@, line@),
{
    if is_analysis_line(line) {
        let c = match ctx {
            Some(c) => c,
            None => return LineAction::Ignored,
        };
        return match parse_kata_analyze(line) {
            Some(result) => LineAction::Analysis(
                KataAnalyzeEvent { node_id: c.node_id, for_color: c.for_color, result },
            ),
            None => LineAction::Ignored,
        };
    }
    if line.is_empty() {
        if acc.as_str().is_empty() {
            return LineAction::Ignored;
        }
        let response = acc.clone();
        *acc = String::new();
        return LineAction::Response(response);
    }
    if !acc.as_str().is_empty() {
        push_char(acc, '\n');
    }
    push_str(acc, line);
    LineAction::Gathered
}

/// The reply text gathered from `acc` by adding the lines `ls` one after the other.
pub open spec fn gathered_all(acc: Seq<char>, ls: Seq<Seq<char>>) -> Seq<char>
    decreases ls.len(),
{
    if ls.len() == 0 {
        acc
    } else {
        gathered(gathered_all(acc, ls.drop_last()), ls.last())
    }
}

/// The lines `ls` joined by `\n`.
pub open spec fn joined(ls: Seq<Seq<char>>) -> Seq<char>
    decreases ls.len(),
{
    if ls.len() == 0 {
        Seq::empty()
    } else if ls.len() == 1 {
        ls[0]
    } else {
        joined(ls.drop_last()).push('\n') + ls.last()
    }
}

/// A reply of several lines is handed over whole: the reply gathered from nothing by
/// adding non-empty lines is those lines joined by `\n`.
pub proof fn law_reply_lines_joined(ls: Seq<Seq<char>>)
    requires
        forall|i: int| 0 <= i < ls.len() ==> #[trigger] ls[i].len() > 0,
    ensures
        gathered_all(Seq::empty(), ls) == joined(ls),
        ls.len() > 0 ==> gathered_all(Seq::empty(), ls).len() > 0,
    decreases ls.len(),
{
    if ls.len() > 0 {
        let init = ls.drop_last();
        assert forall|i: int| 0 <= i < init.len() implies #[trigger] init[i].len() > 0 by {
            assert(init[i] == ls[i]);
        }
        law_reply_lines_joined(init);
        assert(ls.last() == ls[ls.len() - 1]);
        if ls.len() == 1 {
            assert(init.len() == 0);
            assert(ls[0] == ls.last());
        }
    }
}

} // verus!
