//! Reading the streamed output of `kata-analyze`: a line
//! `info move Q16 visits 123 winrate 0.5432 scoreLead 1.23 ... pv Q16 D4 ... info move D4 ...`
//! becomes a list of candidate moves.
//!
//! Numbers with a fraction (winrate, scoreLead, ownership) are kept as their text here; the
//! text of each is handed on as the engine wrote it, and read as a floating-point number
//! where one is at hand.
use vstd::prelude::*;
use crate::floats::{float_text, float_text_in, lower};
use crate::text::{all_digits, chars_of, is_digit, parse_unsigned, parse_unsigned_in, string_from, trim};
use crate::tokens::{
    pieces, push_range, range_is, ranges_in, split_from, split_ranges, word_ranges, words, nonempty,
};
use crate::text::trim_range;

verus! {

/// One candidate move of an analysis line.
pub struct KataAnalyzeMove {
    /// The candidate's vertex, as the engine wrote it.
    pub mv: String,
    pub visits: u32,
    /// The text of the winrate value, if the block gave one.
    pub winrate: Option<String>,
    /// The text of the scoreLead value, if the block gave one.
    pub score_lead: Option<String>,
    pub pv: Vec<String>,
}

/// The candidates of one analysis line.
pub struct KataAnalyzeResult {
    /// Not in the engine's output: always 0.
    pub move_number: u32,
    pub candidates: Vec<KataAnalyzeMove>,
    /// With `ownership true`: the texts of the ownership values, one per board point, rows
    /// from the top and each row from the left; otherwise `None`.
    pub ownership: Option<Vec<String>>,
}

/// The texts of a list of strings.
pub open spec fn texts(v: Seq<String>) -> Seq<Seq<char>> {
    v.map_values(|s: String| s@)
}

/// The text of an optional string.
pub open spec fn opt_text(o: Option<String>) -> Option<Seq<char>> {
    match o {
        Some(s) => Some(s@),
        None => None,
    }
}

/// What a candidate move holds, as texts.
pub struct MoveModel {
    pub mv: Seq<char>,
    pub visits: u32,
    pub winrate: Option<Seq<char>>,
    pub score_lead: Option<Seq<char>>,
    pub pv: Seq<Seq<char>>,
}

impl View for KataAnalyzeMove {
    type V = MoveModel;

    open spec fn view(&self) -> MoveModel {
        MoveModel {
            mv: self.mv@,
            visits: self.visits,
            winrate: opt_text(self.winrate),
            score_lead: opt_text(self.score_lead),
            pv: texts(self.pv@),
        }
    }
}

/// What an analysis line holds, as texts.
pub struct AnalysisModel {
    pub move_number: u32,
    pub candidates: Seq<MoveModel>,
    pub ownership: Option<Seq<Seq<char>>>,
}

impl View for KataAnalyzeResult {
    type V = AnalysisModel;

    open spec fn view(&self) -> AnalysisModel {
        AnalysisModel {
            move_number: self.move_number,
            candidates: self.candidates@.map_values(|m: KataAnalyzeMove| m@),
            ownership: match self.ownership {
                Some(v) => Some(texts(v@)),
                None => None,
            },
        }
    }
}

pub open spec fn kw_info() -> Seq<char> {
    seq!['i', 'n', 'f', 'o', ' ']
}

pub open spec fn kw_move() -> Seq<char> {
    seq!['m', 'o', 'v', 'e']
}

pub open spec fn kw_visits() -> Seq<char> {
    seq!['v', 'i', 's', 'i', 't', 's']
}

pub open spec fn kw_winrate() -> Seq<char> {
    seq!['w', 'i', 'n', 'r', 'a', 't', 'e']
}

pub open spec fn kw_score_lead() -> Seq<char> {
    seq!['s', 'c', 'o', 'r', 'e', 'L', 'e', 'a', 'd']
}

pub open spec fn kw_pv() -> Seq<char> {
    seq!['p', 'v']
}

pub open spec fn kw_ownership() -> Seq<char> {
    seq!['o', 'w', 'n', 'e', 'r', 's', 'h', 'i', 'p']
}

/// The keys a move block is read by; an unknown key is skipped up to the next of these.
pub open spec fn is_known_key(t: Seq<char>) -> bool {
    t == kw_move() || t == kw_visits() || t == kw_winrate() || t == kw_score_lead() || t == kw_pv()
}

/// `c` is an ASCII letter.
pub open spec fn is_ascii_alpha(c: char) -> bool {
    ('a' <= c && c <= 'z') || ('A' <= c && c <= 'Z')
}

/// `t` looks like a GTP vertex: `pass` or `resign` in any case, or a letter followed by
/// at least one digit and nothing else.
pub open spec fn vertex_like(t: Seq<char>) -> bool {
    ||| lower(t) == seq!['p', 'a', 's', 's']
    ||| lower(t) == seq!['r', 'e', 's', 'i', 'g', 'n']
    ||| (t.len() >= 2 && is_ascii_alpha(t[0]) && all_digits(t.drop_first()))
}

/// The analysis blocks of `line`: its pieces between occurrences of `info `, trimmed,
/// the empty ones left out.
pub open spec fn move_blocks(line: Seq<char>) -> Seq<Seq<char>> {
    nonempty(split_from(line, kw_info(), 0).map_values(|p: Seq<char>| trim(p)))
}

/// The end of the run of vertex-like words of `ts` that starts at `j`.
pub open spec fn vertex_run(ts: Seq<Seq<char>>, j: int) -> int
    decreases ts.len() - j,
{
    if 0 <= j < ts.len() && vertex_like(ts[j]) {
        vertex_run(ts, j + 1)
    } else {
        j
    }
}

/// What reading a move block has gathered so far.
pub struct BlockScan {
    pub mv: Option<Seq<char>>,
    pub visits: u32,
    pub winrate: Option<Seq<char>>,
    pub score_lead: Option<Seq<char>>,
    pub pv: Seq<Seq<char>>,
    pub leftover: Seq<Seq<char>>,
}

/// Nothing gathered yet.
pub open spec fn empty_scan() -> BlockScan {
    BlockScan {
        mv: None,
        visits: 0,
        winrate: None,
        score_lead: None,
        pv: Seq::empty(),
        leftover: Seq::empty(),
    }
}

/// The number a `visits` value gives: its value as a `u32`, or 0 when it is none.
pub open spec fn visits_value(t: Seq<char>) -> u32 {
    match parse_unsigned(t, u32::MAX as nat) {
        Some(v) => v as u32,
        None => 0,
    }
}

/// Reading the words `ts` of a move block from position `i` on, with `acc` gathered so far;
/// `skipping` while passing over an unknown key's values.
///
/// `move`, `visits`, `winrate` and `scoreLead` take the word after them (a key with no
/// word after it counts as unknown); `pv` takes the vertex-like words after it, and the
/// words after those are left over; reading ends there.
pub open spec fn scan_block(ts: Seq<Seq<char>>, i: int, acc: BlockScan, skipping: bool) -> BlockScan
    decreases ts.len() - i,
{
    if i < 0 || i >= ts.len() {
        acc
    } else if skipping && !is_known_key(ts[i]) {
        scan_block(ts, i + 1, acc, true)
    } else if ts[i] == kw_move() && i + 1 < ts.len() {
        scan_block(ts, i + 2, BlockScan { mv: Some(ts[i + 1]), ..acc }, false)
    } else if ts[i] == kw_visits() && i + 1 < ts.len() {
        scan_block(ts, i + 2, BlockScan { visits: visits_value(ts[i + 1]), ..acc }, false)
    } else if ts[i] == kw_winrate() && i + 1 < ts.len() {
        scan_block(ts, i + 2, BlockScan { winrate: Some(ts[i + 1]), ..acc }, false)
    } else if ts[i] == kw_score_lead() && i + 1 < ts.len() {
        scan_block(ts, i + 2, BlockScan { score_lead: Some(ts[i + 1]), ..acc }, false)
    } else if ts[i] == kw_pv() {
        let j = vertex_run(ts, i + 1);
        BlockScan { pv: ts.subrange(i + 1, j), leftover: ts.subrange(j, ts.len() as int), ..acc }
    } else {
        scan_block(ts, i + 1, acc, true)
    }
}

/// The candidate a move block gives, with the words left over after its `pv`; `None` when
/// the block names no move.
pub open spec fn block_result(block: Seq<char>) -> Option<(MoveModel, Seq<Seq<char>>)> {
    let s = scan_block(words(block), 0, empty_scan(), false);
    match s.mv {
        Some(mv) => Some(
            (
                MoveModel {
                    mv,
                    visits: s.visits,
                    winrate: s.winrate,
                    score_lead: s.score_lead,
                    pv: s.pv,
                },
                s.leftover,
            ),
        ),
        None => None,
    }
}

/// The candidates of the blocks `bs`, in order.
pub open spec fn candidates_of(bs: Seq<Seq<char>>) -> Seq<MoveModel>
    decreases bs.len(),
{
    if bs.len() == 0 {
        Seq::empty()
    } else {
        match block_result(bs.last()) {
            Some((m, _)) => candidates_of(bs.drop_last()).push(m),
            None => candidates_of(bs.drop_last()),
        }
    }
}

/// The words left over by the last of the blocks `bs` that gives a candidate.
pub open spec fn trailing_of(bs: Seq<Seq<char>>) -> Seq<Seq<char>>
    decreases bs.len(),
{
    if bs.len() == 0 {
        Seq::empty()
    } else {
        match block_result(bs.last()) {
            Some((_, l)) => l,
            None => trailing_of(bs.drop_last()),
        }
    }
}

/// The position of the first `w` among `ts` from `k` on.
pub open spec fn find_word(ts: Seq<Seq<char>>, w: Seq<char>, k: int) -> Option<int>
    decreases ts.len() - k,
{
    if k < 0 || k >= ts.len() {
        None
    } else if ts[k] == w {
        Some(k)
    } else {
        find_word(ts, w, k + 1)
    }
}

/// The end of the run of number texts of `ts` that starts at `j`.
pub open spec fn number_run(ts: Seq<Seq<char>>, j: int) -> int
    decreases ts.len() - j,
{
    if 0 <= j < ts.len() && float_text(ts[j]) {
        number_run(ts, j + 1)
    } else {
        j
    }
}

/// The ownership values of the leftover words: the number texts right after the word
/// `ownership`; `None` when there is no such word or no number follows it.
pub open spec fn ownership_of(trailing: Seq<Seq<char>>) -> Option<Seq<Seq<char>>> {
    match find_word(trailing, kw_ownership(), 0) {
        None => None,
        Some(p) => {
            let e = number_run(trailing, p + 1);
            if e == p + 1 {
                None
            } else {
                Some(trailing.subrange(p + 1, e))
            }
        },
    }
}

/// What an analysis line gives: its candidates and ownership, or `None` when no block
/// names a move.
pub open spec fn analysis_of(line: Seq<char>) -> Option<AnalysisModel> {
    let bs = move_blocks(line);
    let cands = candidates_of(bs);
    if cands.len() == 0 {
        None
    } else {
        Some(AnalysisModel { move_number: 0, candidates: cands, ownership: ownership_of(trailing_of(bs)) })
    }
}

/// Whether `line` is a line of streamed analysis: GTP replies start with `=` or `?`, so a
/// line starting with `info ` can only be analysis output.
pub fn is_analysis_line(line: &str) -> (r: bool)
    ensures
        r == (line@.len() >= 5 && line@.subrange(0, 5) == kw_info()),
{
    let cs = chars_of(line);
    cs.len() >= 5 && range_is(&cs, 0, 5, &['i', 'n', 'f', 'o', ' '])
}

proof fn lemma_vertex_run_bounds(ts: Seq<Seq<char>>, j: int)
    requires
        0 <= j <= ts.len(),
    ensures
        j <= vertex_run(ts, j) <= ts.len(),
        forall|k: int| j <= k < vertex_run(ts, j) ==> vertex_like(#[trigger] ts[k]),
    decreases ts.len() - j,
{
    if j < ts.len() && vertex_like(ts[j]) {
        lemma_vertex_run_bounds(ts, j + 1);
    }
}

proof fn lemma_number_run_bounds(ts: Seq<Seq<char>>, j: int)
    requires
        0 <= j <= ts.len(),
    ensures
        j <= number_run(ts, j) <= ts.len(),
        forall|k: int| j <= k < number_run(ts, j) ==> float_text(#[trigger] ts[k]),
    decreases ts.len() - j,
{
    if j < ts.len() && float_text(ts[j]) {
        lemma_number_run_bounds(ts, j + 1);
    }
}

proof fn lemma_find_word_bounds(ts: Seq<Seq<char>>, w: Seq<char>, k: int)
    requires
        0 <= k,
    ensures
        match find_word(ts, w, k) {
            Some(p) => k <= p < ts.len() && ts[p] == w,
            None => true,
        },
    decreases ts.len() - k,
{
    if k < ts.len() && ts[k] != w {
        lemma_find_word_bounds(ts, w, k + 1);
    }
}

/// Whether the words of `cs[lo..hi]` look like a vertex (see [`vertex_like`]).
fn vertex_like_in(cs: &Vec<char>, lo: usize, hi: usize) -> (r: bool)
    requires
        lo <= hi <= cs@.len(),
    ensures
        r == vertex_like(cs@.subrange(lo as int, hi as int)),
{
    let ghost t = cs@.subrange(lo as int, hi as int);
    if crate::floats::lower_is(cs, lo, hi, &['p', 'a', 's', 's']) || crate::floats::lower_is(
        cs,
        lo,
        hi,
        &['r', 'e', 's', 'i', 'g', 'n'],
    ) {
        return true;
    }
    if hi - lo < 2 {
        return false;
    }
    let c = cs[lo];
    assert(t[0] == c);
    if !(('a' <= c && c <= 'z') || ('A' <= c && c <= 'Z')) {
        return false;
    }
    let ghost d = t.drop_first();
    let mut k = lo + 1;
    while k < hi
        invariant
            lo < k <= hi <= cs@.len(),
            t == cs@.subrange(lo as int, hi as int),
            d == t.drop_first(),
            lower(t) != seq!['p', 'a', 's', 's'],
            lower(t) != seq!['r', 'e', 's', 'i', 'g', 'n'],
            forall|i: int| 0 <= i < k - lo - 1 ==> is_digit(#[trigger] d[i]),
        decreases hi - k,
    {
        assert(d[k - lo - 1] == cs@[k as int]);
        if !('0' <= cs[k] && cs[k] <= '9') {
            assert(!is_digit(d[k - lo - 1]));
            return false;
        }
        k += 1;
    }
    true
}

/// Whether `token` looks like a GTP vertex: `pass`, `resign` (any case), or a letter and
/// then digits, such as `Q16`. Tells the vertices of a `pv` from what follows them
/// (ownership values such as `-0.3` start with no letter).
pub fn looks_like_vertex(token: &str) -> (r: bool)
    ensures
        r == vertex_like(token@),
{
    let cs = chars_of(token);
    assert(cs@.subrange(0, cs@.len() as int) =~= cs@);
    vertex_like_in(&cs, 0, cs.len())
}

/// The text of an optional range of `cs`.
pub open spec fn opt_range_text(cs: Seq<char>, o: Option<(usize, usize)>) -> Option<Seq<char>> {
    match o {
        Some(r) => Some(cs.subrange(r.0 as int, r.1 as int)),
        None => None,
    }
}

/// An optional range lies inside `cs`.
pub open spec fn opt_range_in(cs: Seq<char>, o: Option<(usize, usize)>) -> bool {
    match o {
        Some(r) => r.0 <= r.1 <= cs.len(),
        None => true,
    }
}

/// What the reading of a block has gathered, before its `pv`.
pub open spec fn scan_so_far(
    cs: Seq<char>,
    mv: Option<(usize, usize)>,
    visits: u32,
    winrate: Option<(usize, usize)>,
    score_lead: Option<(usize, usize)>,
) -> BlockScan {
    BlockScan {
        mv: opt_range_text(cs, mv),
        visits,
        winrate: opt_range_text(cs, winrate),
        score_lead: opt_range_text(cs, score_lead),
        pv: Seq::empty(),
        leftover: Seq::empty(),
    }
}

/// The string of an optional range of `cs`.
fn opt_string(cs: &Vec<char>, o: Option<(usize, usize)>) -> (r: Option<String>)
    requires
        opt_range_in(cs@, o),
    ensures
        opt_text(r) == opt_range_text(cs@, o),
{
    match o {
        Some((a, b)) => Some(string_from(cs, a, b)),
        None => None,
    }
}

/// Whether the word `cs[a..b]` is one of the keys a block is read by.
fn is_known_key_in(cs: &Vec<char>, a: usize, b: usize) -> (r: bool)
    requires
        a <= b <= cs@.len(),
    ensures
        r == is_known_key(cs@.subrange(a as int, b as int)),
{
    range_is(cs, a, b, &['m', 'o', 'v', 'e']) || range_is(cs, a, b, &['v', 'i', 's', 'i', 't', 's'])
        || range_is(cs, a, b, &['w', 'i', 'n', 'r', 'a', 't', 'e']) || range_is(
        cs,
        a,
        b,
        &['s', 'c', 'o', 'r', 'e', 'L', 'e', 'a', 'd'],
    ) || range_is(cs, a, b, &['p', 'v'])
}

/// The strings of the words `toks[from..to]` of `cs`.
fn word_strings(cs: &Vec<char>, toks: &Vec<(usize, usize)>, from: usize, to: usize) -> (r: Vec<String>)
    requires
        ranges_in(cs@, toks@),
        from <= to <= toks@.len(),
    ensures
        texts(r@) == pieces(cs@, toks@).subrange(from as int, to as int),
{
    let ghost ts = pieces(cs@, toks@);
    let mut out: Vec<String> = Vec::new();
    let mut k = from;
    while k < to
        invariant
            ranges_in(cs@, toks@),
            ts == pieces(cs@, toks@),
            from <= k <= to <= toks@.len(),
            texts(out@) == ts.subrange(from as int, k as int),
        decreases to - k,
    {
        let (a, b) = toks[k];
        assert(toks@[k as int].0 <= toks@[k as int].1 <= cs@.len());
        let w = string_from(cs, a, b);
        let ghost before = out@;
        out.push(w);
        proof {
            assert(out@.drop_last() =~= before);
            assert(ts[k as int] == cs@.subrange(a as int, b as int));
            assert(texts(out@) =~= texts(before).push(w@));
            assert(ts.subrange(from as int, k + 1) =~= ts.subrange(from as int, k as int).push(ts[k as int]));
        }
        k += 1;
    }
    out
}

/// The ranges `toks[from..to]`.
fn range_slice(toks: &Vec<(usize, usize)>, from: usize, to: usize) -> (r: Vec<(usize, usize)>)
    requires
        from <= to <= toks@.len(),
    ensures
        r@ == toks@.subrange(from as int, to as int),
{
    let mut out: Vec<(usize, usize)> = Vec::new();
    let mut k = from;
    while k < to
        invariant
            from <= k <= to <= toks@.len(),
            out@ == toks@.subrange(from as int, k as int),
        decreases to - k,
    {
        out.push(toks[k]);
        assert(out@ =~= toks@.subrange(from as int, k + 1));
        k += 1;
    }
    out
}

/// Reads the move block `cs[lo..hi]`: the candidate it names, with the ranges of the words
/// left over after its `pv`.
fn parse_move_block(cs: &Vec<char>, lo: usize, hi: usize) -> (r: Option<(KataAnalyzeMove, Vec<(usize, usize)>)>)
    requires
        lo <= hi <= cs@.len(),
    ensures
        match (r, block_result(cs@.subrange(lo as int, hi as int))) {
            (None, None) => true,
            (Some((m, left)), Some((mm, lm))) => m@ == mm && ranges_in(cs@, left@) && pieces(cs@, left@) == lm,
            _ => false,
        },
{
    let toks = word_ranges(cs, lo, hi);
    let ghost ts = pieces(cs@, toks@);
    let ghost target = scan_block(ts, 0, empty_scan(), false);
    let n = toks.len();
    let mut i: usize = 0;
    let mut skipping = false;
    let mut mv: Option<(usize, usize)> = None;
    let mut visits: u32 = 0;
    let mut winrate: Option<(usize, usize)> = None;
    let mut score_lead: Option<(usize, usize)> = None;
    assert(scan_so_far(cs@, mv, visits, winrate, score_lead) == empty_scan());
    while i < n
        invariant
            n == toks@.len(),
            ts == pieces(cs@, toks@),
            ts == words(cs@.subrange(lo as int, hi as int)),
            target == scan_block(ts, 0, empty_scan(), false),
            ranges_in(cs@, toks@),
            i <= n,
            opt_range_in(cs@, mv),
            opt_range_in(cs@, winrate),
            opt_range_in(cs@, score_lead),
            scan_block(ts, i as int, scan_so_far(cs@, mv, visits, winrate, score_lead), skipping) == target,
        decreases n - i,
    {
        let (a, b) = toks[i];
        assert(toks@[i as int].0 <= toks@[i as int].1 <= cs@.len());
        assert(ts[i as int] == cs@.subrange(a as int, b as int));
        if skipping && !is_known_key_in(cs, a, b) {
            i += 1;
            continue;
        }
        skipping = false;
        if i + 1 < n {
            assert(toks@[i + 1].0 <= toks@[i + 1].1 <= cs@.len());
            assert(ts[i + 1] == cs@.subrange(toks@[i + 1].0 as int, toks@[i + 1].1 as int));
        }
        if i + 1 < n && range_is(cs, a, b, &['m', 'o', 'v', 'e']) {
            mv = Some(toks[i + 1]);
            i += 2;
        } else if i + 1 < n && range_is(cs, a, b, &['v', 'i', 's', 'i', 't', 's']) {
            let (c, d) = toks[i + 1];
            visits = match parse_unsigned_in(cs, c, d, 0xffff_ffffu64) {
                Some(v) => v as u32,
                None => 0,
            };
            i += 2;
        } else if i + 1 < n && range_is(cs, a, b, &['w', 'i', 'n', 'r', 'a', 't', 'e']) {
            winrate = Some(toks[i + 1]);
            i += 2;
        } else if i + 1 < n && range_is(cs, a, b, &['s', 'c', 'o', 'r', 'e', 'L', 'e', 'a', 'd']) {
            score_lead = Some(toks[i + 1]);
            i += 2;
        } else if range_is(cs, a, b, &['p', 'v']) {
            let mut j = i + 1;
            proof {
                lemma_vertex_run_bounds(ts, i + 1);
            }
            while j < n && vertex_like_in(cs, toks[j].0, toks[j].1)
                invariant
                    n == toks@.len(),
                    ts == pieces(cs@, toks@),
                    ranges_in(cs@, toks@),
                    i < j <= n,
                    vertex_run(ts, j as int) == vertex_run(ts, i + 1),
                decreases n - j,
            {
                assert(toks@[j as int].0 <= toks@[j as int].1 <= cs@.len());
                assert(ts[j as int] == cs@.subrange(toks@[j as int].0 as int, toks@[j as int].1 as int));
                j += 1;
            }
            proof {
                if j < n {
                    assert(toks@[j as int].0 <= toks@[j as int].1 <= cs@.len());
                    assert(ts[j as int] == cs@.subrange(toks@[j as int].0 as int, toks@[j as int].1 as int));
                }
                assert(vertex_run(ts, j as int) == j);
            }
            let pv = word_strings(cs, &toks, i + 1, j);
            let left = range_slice(&toks, j, n);
            proof {
                assert forall|k: int| 0 <= k < left@.len() implies #[trigger] left@[k].0 <= left@[k].1 <= cs@.len() by {
                    assert(left@[k] == toks@[j + k]);
                    assert(toks@[j + k].0 <= toks@[j + k].1 <= cs@.len());
                }
                assert(pieces(cs@, left@) =~= ts.subrange(j as int, n as int));
            }
            return match mv {
                Some((ma, mb)) => Some(
                    (
                        KataAnalyzeMove {
                            mv: string_from(cs, ma, mb),
                            visits,
                            winrate: opt_string(cs, winrate),
                            score_lead: opt_string(cs, score_lead),
                            pv,
                        },
                        left,
                    ),
                ),
                None => None,
            };
        } else {
            i += 1;
            skipping = true;
        }
    }
    match mv {
        Some((ma, mb)) => {
            let m = KataAnalyzeMove {
                mv: string_from(cs, ma, mb),
                visits,
                winrate: opt_string(cs, winrate),
                score_lead: opt_string(cs, score_lead),
                pv: Vec::new(),
            };
            assert(texts(m.pv@) =~= Seq::<Seq<char>>::empty());
            let left: Vec<(usize, usize)> = Vec::new();
            assert(pieces(cs@, left@) =~= Seq::<Seq<char>>::empty());
            Some((m, left))
        },
        None => None,
    }
}

/// The ranges of the analysis blocks of `cs` (see [`move_blocks`]).
fn block_ranges(cs: &Vec<char>) -> (r: Vec<(usize, usize)>)
    ensures
        ranges_in(cs@, r@),
        pieces(cs@, r@) == move_blocks(cs@),
{
    let parts = split_ranges(cs, &['i', 'n', 'f', 'o', ' ']);
    let ghost trimmed = pieces(cs@, parts@).map_values(|p: Seq<char>| trim(p));
    let mut out: Vec<(usize, usize)> = Vec::new();
    let mut k: usize = 0;
    assert(trimmed.take(0) =~= Seq::<Seq<char>>::empty());
    assert(pieces(cs@, out@) =~= Seq::<Seq<char>>::empty());
    while k < parts.len()
        invariant
            ranges_in(cs@, parts@),
            trimmed == pieces(cs@, parts@).map_values(|p: Seq<char>| trim(p)),
            k <= parts@.len(),
            ranges_in(cs@, out@),
            pieces(cs@, out@) == nonempty(trimmed.take(k as int)),
        decreases parts@.len() - k,
    {
        let (a, b) = parts[k];
        assert(parts@[k as int].0 <= parts@[k as int].1 <= cs@.len());
        let (c, d) = trim_range(cs, a, b);
        proof {
            assert(trimmed.take(k + 1).drop_last() =~= trimmed.take(k as int));
            assert(trimmed.take(k + 1).last() == cs@.subrange(c as int, d as int));
        }
        if c < d {
            push_range(&mut out, cs, c, d);
        }
        k += 1;
    }
    assert(trimmed.take(parts@.len() as int) =~= trimmed);
    out
}

/// The analysis blocks of `line` (`move Q16 visits ...`): its pieces between occurrences of
/// `info `, trimmed, the empty ones left out.
pub fn split_move_blocks(line: &str) -> (r: Vec<String>)
    ensures
        texts(r@) == move_blocks(line@),
{
    let cs = chars_of(line);
    let blocks = block_ranges(&cs);
    let mut out: Vec<String> = Vec::new();
    let mut k: usize = 0;
    while k < blocks.len()
        invariant
            ranges_in(cs@, blocks@),
            k <= blocks@.len(),
            texts(out@) == pieces(cs@, blocks@).take(k as int),
        decreases blocks@.len() - k,
    {
        let (a, b) = blocks[k];
        assert(blocks@[k as int].0 <= blocks@[k as int].1 <= cs@.len());
        let w = string_from(&cs, a, b);
        let ghost before = out@;
        out.push(w);
        proof {
            assert(texts(out@) =~= texts(before).push(w@));
            assert(pieces(cs@, blocks@).take(k + 1) =~= pieces(cs@, blocks@).take(k as int).push(
                cs@.subrange(a as int, b as int),
            ));
        }
        k += 1;
    }
    assert(pieces(cs@, blocks@).take(blocks@.len() as int) =~= pieces(cs@, blocks@));
    out
}

/// The ownership values among the words `trailing` of `cs` (see [`ownership_of`]).
fn parse_ownership(cs: &Vec<char>, trailing: &Vec<(usize, usize)>) -> (r: Option<Vec<String>>)
    requires
        ranges_in(cs@, trailing@),
    ensures
        match r {
            Some(v) => ownership_of(pieces(cs@, trailing@)) == Some(texts(v@)),
            None => ownership_of(pieces(cs@, trailing@)) is None,
        },
{
    let ghost ts = pieces(cs@, trailing@);
    let n = trailing.len();
    let mut p: usize = 0;
    while p < n
        invariant
            n == trailing@.len(),
            ranges_in(cs@, trailing@),
            ts == pieces(cs@, trailing@),
            p <= n,
            find_word(ts, kw_ownership(), p as int) == find_word(ts, kw_ownership(), 0),
        ensures
            p <= n,
            p < n ==> ts[p as int] == kw_ownership(),
            find_word(ts, kw_ownership(), p as int) == find_word(ts, kw_ownership(), 0),
        decreases n - p,
    {
        let (a, b) = trailing[p];
        assert(trailing@[p as int].0 <= trailing@[p as int].1 <= cs@.len());
        assert(ts[p as int] == cs@.subrange(a as int, b as int));
        if range_is(cs, a, b, &['o', 'w', 'n', 'e', 'r', 's', 'h', 'i', 'p']) {
            break;
        }
        p += 1;
    }
    if p == n {
        return None;
    }
    assert(find_word(ts, kw_ownership(), 0) == Some(p as int));
    let mut e = p + 1;
    proof {
        lemma_number_run_bounds(ts, p + 1);
    }
    while e < n && float_text_in(cs, trailing[e].0, trailing[e].1)
        invariant
            n == trailing@.len(),
            ranges_in(cs@, trailing@),
            ts == pieces(cs@, trailing@),
            p < e <= n,
            number_run(ts, e as int) == number_run(ts, p + 1),
        decreases n - e,
    {
        assert(trailing@[e as int].0 <= trailing@[e as int].1 <= cs@.len());
        assert(ts[e as int] == cs@.subrange(trailing@[e as int].0 as int, trailing@[e as int].1 as int));
        e += 1;
    }
    proof {
        if e < n {
            assert(trailing@[e as int].0 <= trailing@[e as int].1 <= cs@.len());
            assert(ts[e as int] == cs@.subrange(trailing@[e as int].0 as int, trailing@[e as int].1 as int));
        }
        assert(number_run(ts, e as int) == e);
    }
    if e == p + 1 {
        return None;
    }
    Some(word_strings(cs, trailing, p + 1, e))
}

/// Reads an analysis line: its candidates in order, with the ownership values that follow
/// the `pv` of the last candidate; `None` when no block names a move. `move_number` is
/// always 0 (the engine does not report it).
pub fn parse_kata_analyze(line: &str) -> (r: Option<KataAnalyzeResult>)
    ensures
        match r {
            Some(res) => analysis_of(line@) == Some(res@),
            None => analysis_of(line@) is None,
        },
{
    let cs = chars_of(line);
    let blocks = block_ranges(&cs);
    let ghost bs = pieces(cs@, blocks@);
    let mut candidates: Vec<KataAnalyzeMove> = Vec::new();
    let mut trailing: Vec<(usize, usize)> = Vec::new();
    let mut k: usize = 0;
    assert(bs.take(0) =~= Seq::<Seq<char>>::empty());
    assert(candidates@.map_values(|m: KataAnalyzeMove| m@) =~= Seq::<MoveModel>::empty());
    assert(pieces(cs@, trailing@) =~= Seq::<Seq<char>>::empty());
    while k < blocks.len()
        invariant
            ranges_in(cs@, blocks@),
            bs == pieces(cs@, blocks@),
            bs == move_blocks(cs@),
            k <= blocks@.len(),
            ranges_in(cs@, trailing@),
            candidates@.map_values(|m: KataAnalyzeMove| m@) == candidates_of(bs.take(k as int)),
            pieces(cs@, trailing@) == trailing_of(bs.take(k as int)),
        decreases blocks@.len() - k,
    {
        let (a, b) = blocks[k];
        assert(blocks@[k as int].0 <= blocks@[k as int].1 <= cs@.len());
        proof {
            assert(bs.take(k + 1).drop_last() =~= bs.take(k as int));
            assert(bs.take(k + 1).last() == cs@.subrange(a as int, b as int));
        }
        match parse_move_block(&cs, a, b) {
            Some((m, left)) => {
                let ghost before = candidates@;
                candidates.push(m);
                proof {
                    assert(candidates@.map_values(|m: KataAnalyzeMove| m@) =~= before.map_values(
                        |m: KataAnalyzeMove| m@,
                    ).push(m@));
                }
                trailing = left;
            },
            None => {},
        }
        k += 1;
    }
    assert(bs.take(blocks@.len() as int) =~= bs);
    if candidates.len() == 0 {
        return None;
    }
    let ownership = parse_ownership(&cs, &trailing);
    Some(KataAnalyzeResult { move_number: 0, candidates, ownership })
}

/// Every word of `ws` looks like a vertex.
pub open spec fn all_vertex_like(ws: Seq<Seq<char>>) -> bool {
    forall|k: int| 0 <= k < ws.len() ==> vertex_like(#[trigger] ws[k])
}

proof fn lemma_scan_pv(ts: Seq<Seq<char>>, i: int, acc: BlockScan, skipping: bool)
    requires
        0 <= i,
        all_vertex_like(acc.pv),
    ensures
        all_vertex_like(scan_block(ts, i, acc, skipping).pv),
    decreases ts.len() - i,
{
    if i < ts.len() {
        if skipping && !is_known_key(ts[i]) {
            lemma_scan_pv(ts, i + 1, acc, true);
        } else if ts[i] == kw_move() && i + 1 < ts.len() {
            lemma_scan_pv(ts, i + 2, BlockScan { mv: Some(ts[i + 1]), ..acc }, false);
        } else if ts[i] == kw_visits() && i + 1 < ts.len() {
            lemma_scan_pv(ts, i + 2, BlockScan { visits: visits_value(ts[i + 1]), ..acc }, false);
        } else if ts[i] == kw_winrate() && i + 1 < ts.len() {
            lemma_scan_pv(ts, i + 2, BlockScan { winrate: Some(ts[i + 1]), ..acc }, false);
        } else if ts[i] == kw_score_lead() && i + 1 < ts.len() {
            lemma_scan_pv(ts, i + 2, BlockScan { score_lead: Some(ts[i + 1]), ..acc }, false);
        } else if ts[i] == kw_pv() {
            lemma_vertex_run_bounds(ts, i + 1);
            let j = vertex_run(ts, i + 1);
            assert forall|k: int| 0 <= k < j - (i + 1) implies vertex_like(#[trigger] ts.subrange(i + 1, j)[k]) by {
                assert(ts.subrange(i + 1, j)[k] == ts[i + 1 + k]);
            }
        } else {
            lemma_scan_pv(ts, i + 1, acc, true);
        }
    }
}

proof fn lemma_candidates_pv(bs: Seq<Seq<char>>)
    ensures
        forall|c: int| 0 <= c < candidates_of(bs).len() ==> all_vertex_like(#[trigger] candidates_of(bs)[c].pv),
    decreases bs.len(),
{
    if bs.len() > 0 {
        lemma_candidates_pv(bs.drop_last());
        lemma_scan_pv(words(bs.last()), 0, empty_scan(), false);
    }
}

/// What an analysis line gives is well shaped: every word of every candidate's `pv` looks
/// like a vertex, and the ownership values, when there are any, are all number texts.
pub proof fn law_analysis_fields(line: Seq<char>)
    ensures
        analysis_of(line) matches Some(a) ==> {
            &&& forall|c: int| 0 <= c < a.candidates.len() ==> all_vertex_like(#[trigger] a.candidates[c].pv)
            &&& a.ownership matches Some(o) ==> o.len() > 0 && forall|k: int| 0 <= k < o.len() ==> float_text(#[trigger] o[k])
        },
{
    let bs = move_blocks(line);
    lemma_candidates_pv(bs);
    let tr = trailing_of(bs);
    lemma_find_word_bounds(tr, kw_ownership(), 0);
    match find_word(tr, kw_ownership(), 0) {
        Some(p) => {
            lemma_number_run_bounds(tr, p + 1);
            let e = number_run(tr, p + 1);
            assert forall|k: int| 0 <= k < e - (p + 1) implies float_text(#[trigger] tr.subrange(p + 1, e)[k]) by {
                assert(tr.subrange(p + 1, e)[k] == tr[p + 1 + k]);
            }
        },
        None => {},
    }
}

/// Skipping the values of an unknown key stops at every key the block is read by: at
/// `move`, `visits`, `winrate`, `scoreLead` and `pv`, reading goes on as if no key had been
/// skipped.
pub proof fn law_known_keys_end_skipping(ts: Seq<Seq<char>>, i: int, acc: BlockScan)
    requires
        0 <= i < ts.len(),
        ts[i] == seq!['m', 'o', 'v', 'e'] || ts[i] == seq!['v', 'i', 's', 'i', 't', 's'] || ts[i] == seq![
            'w',
            'i',
            'n',
            'r',
            'a',
            't',
            'e',
        ] || ts[i] == seq!['s', 'c', 'o', 'r', 'e', 'L', 'e', 'a', 'd'] || ts[i] == seq!['p', 'v'],
    ensures
        scan_block(ts, i, acc, true) == scan_block(ts, i, acc, false),
{
}

/// A `scoreLead <v>` pair is read as the score lead wherever it stands, also right after an
/// unknown key and its values: reading it sets the score lead to `v` and goes on after it.
pub proof fn law_score_lead_read_after_unknown_key(ts: Seq<Seq<char>>, i: int, acc: BlockScan, skipping: bool)
    requires
        0 <= i,
        i + 1 < ts.len(),
        ts[i] == seq!['s', 'c', 'o', 'r', 'e', 'L', 'e', 'a', 'd'],
    ensures
        scan_block(ts, i, acc, skipping) == scan_block(
            ts,
            i + 2,
            BlockScan { score_lead: Some(ts[i + 1]), ..acc },
            false,
        ),
{
}

/// The same for `winrate <v>` and `visits <n>`: each is read wherever it stands.
pub proof fn law_winrate_and_visits_read_after_unknown_key(ts: Seq<Seq<char>>, i: int, acc: BlockScan, skipping: bool)
    requires
        0 <= i,
        i + 1 < ts.len(),
    ensures
        ts[i] == seq!['w', 'i', 'n', 'r', 'a', 't', 'e'] ==> scan_block(ts, i, acc, skipping) == scan_block(
            ts,
            i + 2,
            BlockScan { winrate: Some(ts[i + 1]), ..acc },
            false,
        ),
        ts[i] == seq!['v', 'i', 's', 'i', 't', 's'] ==> scan_block(ts, i, acc, skipping) == scan_block(
            ts,
            i + 2,
            BlockScan { visits: visits_value(ts[i + 1]), ..acc },
            false,
        ),
{
}

} // verus!
