//! SSH private keys found in the user's `~/.ssh`: which files are candidates, which texts
//! look like keys, and the summary shown for each. Scanning the directory happens where
//! files can be read; on platforms without such a directory both requests are refused.
use vstd::prelude::*;
use crate::error::AppError;
use crate::profile::{detect_passphrase, secret_key_decoding, KeyDecoding};
use crate::text::{chars_of, push_str, trim_start};
use crate::tokens::{fields_at, is_separator, nonempty, pieces, range_is, ranges_in, separated_ranges};

verus! {

/// A key found on this machine: its file name, its path and whether it needs a passphrase.
/// The key text itself is read only when the user picks it.
pub struct LocalSshKeyInfo {
    pub name: String,
    pub path: String,
    pub has_passphrase: bool,
}

/// The message of both requests where there is no key directory to scan.
pub open spec fn unsupported_message() -> Seq<char> {
    "이 플랫폼에서는 로컬 SSH key 자동 감지를 지원하지 않습니다"@
}

fn unsupported() -> (r: AppError)
    ensures
        r matches AppError::Other(m) && m@ == unsupported_message(),
{
    let mut m = String::new();
    push_str(&mut m, "이 플랫폼에서는 로컬 SSH key 자동 감지를 지원하지 않습니다");
    AppError::Other(m)
}

/// Listing the keys of this machine, where it has no key directory: refused.
pub fn list() -> (r: Result<Vec<LocalSshKeyInfo>, AppError>)
    ensures
        r matches Err(AppError::Other(m)) && m@ == unsupported_message(),
{
    Err(unsupported())
}

/// Reading a key of this machine, where it has no key directory: refused.
pub fn load(path: &str) -> (r: Result<String, AppError>)
    ensures
        r matches Err(AppError::Other(m)) && m@ == unsupported_message(),
{
    Err(unsupported())
}

/// `s` starts with `p`.
pub open spec fn starts_with(s: Seq<char>, p: Seq<char>) -> bool {
    p.len() <= s.len() && s.subrange(0, p.len() as int) == p
}

/// `s` ends with `p`.
pub open spec fn ends_with(s: Seq<char>, p: Seq<char>) -> bool {
    p.len() <= s.len() && s.subrange(s.len() - p.len(), s.len() as int) == p
}

/// The file `name` in `~/.ssh` may hold a private key: it is not hidden, not a public key,
/// not `known_hosts*`, `config` or `authorized_keys`.
pub open spec fn key_file_candidate(name: Seq<char>) -> bool {
    !(starts_with(name, seq!['.']) || ends_with(name, seq!['.', 'p', 'u', 'b']) || starts_with(
        name,
        seq!['k', 'n', 'o', 'w', 'n', '_', 'h', 'o', 's', 't', 's'],
    ) || name == seq!['c', 'o', 'n', 'f', 'i', 'g'] || name == seq![
        'a',
        'u',
        't',
        'h',
        'o',
        'r',
        'i',
        'z',
        'e',
        'd',
        '_',
        'k',
        'e',
        'y',
        's',
    ])
}

/// Whether the file `name` in `~/.ssh` may hold a private key (see [`key_file_candidate`]).
pub fn is_key_file_name(name: &str) -> (r: bool)
    ensures
        r == key_file_candidate(name@),
{
    let cs = chars_of(name);
    let n = cs.len();
    assert(cs@.subrange(0, n as int) =~= cs@);
    let hidden = n >= 1 && cs[0] == '.';
    proof {
        if n >= 1 {
            assert(cs@.subrange(0, 1) =~= seq![cs@[0]]);
        }
    }
    let public = n >= 4 && range_is(&cs, n - 4, n, &['.', 'p', 'u', 'b']);
    let known_hosts = n >= 11 && range_is(&cs, 0, 11, &['k', 'n', 'o', 'w', 'n', '_', 'h', 'o', 's', 't', 's']);
    let config = range_is(&cs, 0, n, &['c', 'o', 'n', 'f', 'i', 'g']);
    let authorized = range_is(
        &cs,
        0,
        n,
        &['a', 'u', 't', 'h', 'o', 'r', 'i', 'z', 'e', 'd', '_', 'k', 'e', 'y', 's'],
    );
    proof {
        let s = name@;
        assert(hidden == starts_with(s, seq!['.']));
        assert(public == ends_with(s, seq!['.', 'p', 'u', 'b']));
        assert(known_hosts == starts_with(s, seq!['k', 'n', 'o', 'w', 'n', '_', 'h', 'o', 's', 't', 's']));
    }
    !(hidden || public || known_hosts || config || authorized)
}

/// The text of a key file: after leading whitespace it starts with `-----BEGIN`.
pub open spec fn key_text(content: Seq<char>) -> bool {
    starts_with(trim_start(content), seq!['-', '-', '-', '-', '-', 'B', 'E', 'G', 'I', 'N'])
}

/// Whether `content` looks like the text of a private key (see [`key_text`]).
pub fn looks_like_key_text(content: &str) -> (r: bool)
    ensures
        r == key_text(content@),
{
    let cs = chars_of(content);
    let n = cs.len();
    let mut i: usize = 0;
    assert(cs@.subrange(0, n as int) =~= cs@);
    while i < n && crate::text::is_whitespace(cs[i])
        invariant
            n == cs@.len(),
            i <= n,
            trim_start(cs@.subrange(i as int, n as int)) == trim_start(cs@),
        decreases n - i,
    {
        assert(cs@.subrange(i as int, n as int).drop_first() =~= cs@.subrange(i + 1, n as int));
        i += 1;
    }
    proof {
        assert(cs@.subrange(0, n as int) =~= cs@);
        let t = cs@.subrange(i as int, n as int);
        if t.len() > 0 {
            assert(t[0] == cs@[i as int]);
        }
        assert(trim_start(t) == t);
        if t.len() >= 10 {
            assert(t.subrange(0, 10) =~= cs@.subrange(i as int, i + 10));
        }
    }
    n - i >= 10 && range_is(&cs, i, i + 10, &['-', '-', '-', '-', '-', 'B', 'E', 'G', 'I', 'N'])
}

/// The summary of the key file `name` at `path` holding `content`.
pub fn key_info(name: String, path: String, content: &str) -> (r: LocalSshKeyInfo)
    ensures
        r.name@ == name@,
        r.path@ == path@,
        r.has_passphrase == (secret_key_decoding(content@) == KeyDecoding::Encrypted),
{
    LocalSshKeyInfo { name, path, has_passphrase: detect_passphrase(content) }
}

/// `a` comes before `b`, or equals it, in the order of their characters (the order of
/// `str::cmp`, which compares the UTF-8 bytes: the same order).
pub open spec fn text_le(a: Seq<char>, b: Seq<char>) -> bool
    decreases a.len(),
{
    if a.len() == 0 {
        true
    } else if b.len() == 0 {
        false
    } else if a[0] != b[0] {
        a[0] < b[0]
    } else {
        text_le(a.drop_first(), b.drop_first())
    }
}

proof fn lemma_text_le_total(a: Seq<char>, b: Seq<char>)
    ensures
        text_le(a, b) || text_le(b, a),
    decreases a.len(),
{
    if a.len() > 0 && b.len() > 0 && a[0] == b[0] {
        lemma_text_le_total(a.drop_first(), b.drop_first());
    }
}

proof fn lemma_text_le_trans(a: Seq<char>, b: Seq<char>, c: Seq<char>)
    requires
        text_le(a, b),
        text_le(b, c),
    ensures
        text_le(a, c),
    decreases a.len(),
{
    if a.len() > 0 && b.len() > 0 && c.len() > 0 && a[0] == b[0] && b[0] == c[0] {
        lemma_text_le_trans(a.drop_first(), b.drop_first(), c.drop_first());
    }
}

proof fn lemma_text_le_skip(a: Seq<char>, b: Seq<char>, i: int)
    requires
        0 <= i <= a.len(),
        i <= b.len(),
        forall|k: int| 0 <= k < i ==> a[k] == b[k],
    ensures
        text_le(a, b) == text_le(a.subrange(i, a.len() as int), b.subrange(i, b.len() as int)),
    decreases i,
{
    if i > 0 {
        assert(a[0] == b[0]);
        let a1 = a.drop_first();
        let b1 = b.drop_first();
        assert forall|k: int| 0 <= k < i - 1 implies a1[k] == b1[k] by {
            assert(a1[k] == a[k + 1] && b1[k] == b[k + 1]);
        }
        lemma_text_le_skip(a1, b1, i - 1);
        assert(a1.subrange(i - 1, a1.len() as int) =~= a.subrange(i, a.len() as int));
        assert(b1.subrange(i - 1, b1.len() as int) =~= b.subrange(i, b.len() as int));
    } else {
        assert(a.subrange(0, a.len() as int) =~= a);
        assert(b.subrange(0, b.len() as int) =~= b);
    }
}

/// Whether the text `a` comes before `b` or equals it (see [`text_le`]).
pub fn text_le_exec(a: &str, b: &str) -> (r: bool)
    ensures
        r == text_le(a@, b@),
{
    let ac = chars_of(a);
    let bc = chars_of(b);
    let mut i: usize = 0;
    while i < ac.len() && i < bc.len() && ac[i] == bc[i]
        invariant
            ac@ == a@,
            bc@ == b@,
            i <= ac@.len(),
            i <= bc@.len(),
            forall|k: int| 0 <= k < i ==> ac@[k] == bc@[k],
        decreases ac@.len() - i,
    {
        i += 1;
    }
    proof {
        lemma_text_le_skip(a@, b@, i as int);
        let ra = a@.subrange(i as int, a@.len() as int);
        let rb = b@.subrange(i as int, b@.len() as int);
        if ra.len() > 0 && rb.len() > 0 {
            assert(ra[0] == ac@[i as int] && rb[0] == bc@[i as int]);
        }
    }
    if i == ac.len() {
        true
    } else if i == bc.len() {
        false
    } else {
        ac[i] < bc[i]
    }
}

/// What a key summary holds: name, path, passphrase flag.
pub open spec fn info_model(k: LocalSshKeyInfo) -> (Seq<char>, Seq<char>, bool) {
    (k.name@, k.path@, k.has_passphrase)
}

/// The models of a list of key summaries.
pub open spec fn info_models(ks: Seq<LocalSshKeyInfo>) -> Seq<(Seq<char>, Seq<char>, bool)> {
    ks.map_values(|k: LocalSshKeyInfo| info_model(k))
}

/// The summaries `ks` are in the order of their names.
pub open spec fn sorted_by_name(ks: Seq<(Seq<char>, Seq<char>, bool)>) -> bool {
    forall|i: int, j: int| 0 <= i < j < ks.len() ==> text_le(#[trigger] ks[i].0, #[trigger] ks[j].0)
}

/// The key summaries `keys` ordered by name: the same summaries, each as often, names in
/// order.
pub fn sort_by_name(keys: Vec<LocalSshKeyInfo>) -> (r: Vec<LocalSshKeyInfo>)
    ensures
        info_models(r@).to_multiset() == info_models(keys@).to_multiset(),
        sorted_by_name(info_models(r@)),
{
    broadcast use vstd::seq_lib::group_to_multiset_ensures;
    let mut rest = keys;
    let mut out: Vec<LocalSshKeyInfo> = Vec::new();
    assert(info_models(out@) =~= Seq::<(Seq<char>, Seq<char>, bool)>::empty());
    while rest.len() > 0
        invariant
            info_models(out@).to_multiset().add(info_models(rest@).to_multiset()) == info_models(keys@).to_multiset(),
            sorted_by_name(info_models(out@)),
        decreases rest@.len(),
    {
        let ghost before_rest = rest@;
        let k = rest.pop().unwrap();
        proof {
            assert(before_rest =~= rest@.push(k));
            assert(info_models(before_rest) =~= info_models(rest@).push(info_model(k)));
        }
        let ghost om = info_models(out@);
        let mut p: usize = 0;
        while p < out.len() && text_le_exec(out[p].name.as_str(), k.name.as_str())
            invariant
                p <= out@.len(),
                om == info_models(out@),
                forall|i: int| 0 <= i < p ==> text_le(#[trigger] om[i].0, k.name@),
            decreases out@.len() - p,
        {
            assert(om[p as int] == info_model(out@[p as int]));
            p += 1;
        }
        proof {
            if p < out@.len() {
                assert(om[p as int] == info_model(out@[p as int]));
                assert(!text_le(om[p as int].0, k.name@));
                lemma_text_le_total(om[p as int].0, k.name@);
                assert forall|j: int| p <= j < om.len() implies text_le(k.name@, #[trigger] om[j].0) by {
                    if j > p {
                        lemma_text_le_trans(k.name@, om[p as int].0, om[j].0);
                    }
                }
            }
        }
        let ghost km = info_model(k);
        out.insert(p, k);
        proof {
            assert(info_models(out@) =~= om.insert(p as int, km));
            vstd::seq_lib::to_multiset_insert(om, p as int, km);
            let nm = info_models(out@);
            assert forall|i: int, j: int| 0 <= i < j < nm.len() implies text_le(#[trigger] nm[i].0, #[trigger] nm[j].0) by {
                if i < p && j == p {
                } else if i < p && j > p {
                    assert(nm[j] == om[j - 1]);
                    assert(text_le(km.0, om[j - 1].0));
                    lemma_text_le_trans(om[i].0, km.0, om[j - 1].0);
                } else if i == p {
                    assert(nm[j] == om[j - 1]);
                } else if j < p {
                } else {
                    assert(nm[i] == om[i - 1] && nm[j] == om[j - 1]);
                }
            }
            vstd::seq_lib::to_multiset_build(info_models(rest@), km);
            assert(info_models(before_rest).to_multiset() =~= info_models(rest@).to_multiset().insert(km));
            broadcast use vstd::multiset::group_multiset_axioms;
            assert(info_models(out@).to_multiset().add(info_models(rest@).to_multiset())
                =~= om.to_multiset().add(info_models(before_rest).to_multiset()));
        }
    }
    proof {
        assert(info_models(rest@) =~= Seq::<(Seq<char>, Seq<char>, bool)>::empty());
    }
    out
}

/// The characters that separate the components of a path: `/`, and on Windows also `\\`.
pub open spec fn path_separators(windows: bool) -> Seq<char> {
    if windows {
        seq!['/', '\\']
    } else {
        seq!['/']
    }
}

/// The components of a path: its pieces between separators, the empty ones left out.
pub open spec fn path_components(p: Seq<char>, windows: bool) -> Seq<Seq<char>> {
    nonempty(fields_at(p, path_separators(windows)))
}

/// The path `p` starts with a separator (at the root, or with a Windows `\\?\` prefix).
pub open spec fn is_absolute(p: Seq<char>, windows: bool) -> bool {
    p.len() > 0 && path_separators(windows).contains(p[0])
}

/// The path `path` lies inside the directory `dir`: both start with a separator or neither
/// does, and the components of `dir` begin the components of `path` (`Path::starts_with` on
/// canonical paths; on Windows the drive or `\\?\` prefix counts as components too).
pub open spec fn path_within(dir: Seq<char>, path: Seq<char>, windows: bool) -> bool {
    let d = path_components(dir, windows);
    let q = path_components(path, windows);
    &&& is_absolute(dir, windows) == is_absolute(path, windows)
    &&& d.len() <= q.len()
    &&& q.subrange(0, d.len() as int) == d
}

/// The separators of paths on this platform family.
fn separators(windows: bool) -> (r: Vec<char>)
    ensures
        r@ == path_separators(windows),
{
    if windows {
        vec!['/', '\\']
    } else {
        vec!['/']
    }
}

/// Whether `a[alo..ahi]` and `b[blo..bhi]` hold the same characters.
fn same_chars(a: &Vec<char>, alo: usize, ahi: usize, b: &Vec<char>, blo: usize, bhi: usize) -> (r: bool)
    requires
        alo <= ahi <= a@.len(),
        blo <= bhi <= b@.len(),
    ensures
        r == (a@.subrange(alo as int, ahi as int) == b@.subrange(blo as int, bhi as int)),
{
    let ghost sa = a@.subrange(alo as int, ahi as int);
    let ghost sb = b@.subrange(blo as int, bhi as int);
    if ahi - alo != bhi - blo {
        assert(sa.len() != sb.len());
        return false;
    }
    let mut k: usize = 0;
    while k < ahi - alo
        invariant
            alo <= ahi <= a@.len(),
            blo <= bhi <= b@.len(),
            ahi - alo == bhi - blo,
            sa == a@.subrange(alo as int, ahi as int),
            sb == b@.subrange(blo as int, bhi as int),
            k <= ahi - alo,
            forall|m: int| 0 <= m < k ==> sa[m] == sb[m],
        decreases ahi - alo - k,
    {
        if a[alo + k] != b[blo + k] {
            assert(sa[k as int] != sb[k as int]);
            return false;
        }
        k += 1;
    }
    assert(sa =~= sb);
    true
}

/// Whether the (canonical) path `path` lies inside the directory `dir`, with the path
/// separators of Windows when `windows` holds (see [`path_within`]); a key path outside
/// `~/.ssh` is refused.
pub fn is_within_dir(dir: &str, path: &str, windows: bool) -> (r: bool)
    ensures
        r == path_within(dir@, path@, windows),
{
    let seps = separators(windows);
    let dc = chars_of(dir);
    let pc = chars_of(path);
    let d_abs = dc.len() > 0 && is_separator(dc[0], seps.as_slice());
    let p_abs = pc.len() > 0 && is_separator(pc[0], seps.as_slice());
    if d_abs != p_abs {
        return false;
    }
    let dr = separated_ranges(&dc, seps.as_slice());
    let pr = separated_ranges(&pc, seps.as_slice());
    let ghost d = pieces(dc@, dr@);
    let ghost q = pieces(pc@, pr@);
    if dr.len() > pr.len() {
        assert(d.len() > q.len());
        return false;
    }
    let mut k: usize = 0;
    while k < dr.len()
        invariant
            ranges_in(dc@, dr@),
            ranges_in(pc@, pr@),
            d == pieces(dc@, dr@),
            q == pieces(pc@, pr@),
            d == path_components(dir@, windows),
            q == path_components(path@, windows),
            is_absolute(dir@, windows) == is_absolute(path@, windows),
            dr@.len() <= pr@.len(),
            k <= dr@.len(),
            forall|m: int| 0 <= m < k ==> q[m] == d[m],
        decreases dr@.len() - k,
    {
        let (a0, a1) = dr[k];
        let (b0, b1) = pr[k];
        assert(dr@[k as int].0 <= dr@[k as int].1 <= dc@.len());
        assert(pr@[k as int].0 <= pr@[k as int].1 <= pc@.len());
        if !same_chars(&dc, a0, a1, &pc, b0, b1) {
            proof {
                assert(q.subrange(0, d.len() as int)[k as int] == q[k as int]);
                assert(q[k as int] == pc@.subrange(b0 as int, b1 as int));
                assert(d[k as int] == dc@.subrange(a0 as int, a1 as int));
            }
            return false;
        }
        k += 1;
    }
    assert(q.subrange(0, d.len() as int) =~= d);
    true
}

/// A file found in `~/.ssh`: its name, its path, and its text when it is a regular file
/// that could be read as text.
pub struct KeyFileEntry {
    pub name: String,
    pub path: String,
    pub content: Option<String>,
}

/// What a directory entry holds, as texts.
pub open spec fn entry_model(e: KeyFileEntry) -> (Seq<char>, Seq<char>, Option<Seq<char>>) {
    (e.name@, e.path@, match e.content {
        Some(c) => Some(c@),
        None => None,
    })
}

/// The models of a list of directory entries.
pub open spec fn entry_models(es: Seq<KeyFileEntry>) -> Seq<(Seq<char>, Seq<char>, Option<Seq<char>>)> {
    es.map_values(|e: KeyFileEntry| entry_model(e))
}

/// The key summaries of the entries `es` that hold a private key: a candidate name and a
/// text that looks like a key; each with whether the key needs a passphrase. In the order
/// of `es`.
pub open spec fn selected_keys(es: Seq<(Seq<char>, Seq<char>, Option<Seq<char>>)>) -> Seq<(Seq<char>, Seq<char>, bool)>
    decreases es.len(),
{
    if es.len() == 0 {
        Seq::empty()
    } else {
        let e = es.last();
        match e.2 {
            Some(c) => if key_file_candidate(e.0) && key_text(c) {
                selected_keys(es.drop_last()).push((e.0, e.1, secret_key_decoding(c) == KeyDecoding::Encrypted))
            } else {
                selected_keys(es.drop_last())
            },
            None => selected_keys(es.drop_last()),
        }
    }
}

/// The keys among the entries of `~/.ssh`: exactly the entries that hold a private key
/// (see [`selected_keys`]), ordered by name.
pub fn select_keys(entries: &Vec<KeyFileEntry>) -> (r: Vec<LocalSshKeyInfo>)
    ensures
        info_models(r@).to_multiset() == selected_keys(entry_models(entries@)).to_multiset(),
        sorted_by_name(info_models(r@)),
{
    let ghost es = entry_models(entries@);
    let mut keys: Vec<LocalSshKeyInfo> = Vec::new();
    let mut k: usize = 0;
    assert(es.take(0) =~= Seq::<(Seq<char>, Seq<char>, Option<Seq<char>>)>::empty());
    assert(info_models(keys@) =~= Seq::<(Seq<char>, Seq<char>, bool)>::empty());
    while k < entries.len()
        invariant
            es == entry_models(entries@),
            k <= entries@.len(),
            info_models(keys@) == selected_keys(es.take(k as int)),
        decreases entries@.len() - k,
    {
        let e = &entries[k];
        proof {
            assert(es.take(k + 1).drop_last() =~= es.take(k as int));
            assert(es.take(k + 1).last() == entry_model(entries@[k as int]));
        }
        match &e.content {
            Some(c) => {
                if is_key_file_name(e.name.as_str()) && looks_like_key_text(c.as_str()) {
                    let info = key_info(e.name.clone(), e.path.clone(), c.as_str());
                    let ghost before = keys@;
                    keys.push(info);
                    proof {
                        assert(info_models(keys@) =~= info_models(before).push(info_model(info)));
                    }
                }
            },
            None => {},
        }
        k += 1;
    }
    assert(es.take(entries@.len() as int) =~= es);
    sort_by_name(keys)
}

} // verus!
