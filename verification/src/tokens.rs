//! Cutting a line of text into pieces: at whitespace (`str::split_whitespace`) and at a
//! separator (`str::split`). Pieces are given as ranges of character positions.
use vstd::prelude::*;
use crate::text::{is_whitespace, is_ws};

verus! {

/// The fields of `s` cut at every whitespace character; empty fields stay, so there is one
/// more field than there are whitespace characters.
pub open spec fn fields(s: Seq<char>) -> Seq<Seq<char>>
    decreases s.len(),
{
    if s.len() == 0 {
        seq![Seq::<char>::empty()]
    } else if is_ws(s.last()) {
        fields(s.drop_last()).push(Seq::<char>::empty())
    } else {
        let f = fields(s.drop_last());
        f.update(f.len() - 1, f.last().push(s.last()))
    }
}

/// `ws` without its empty pieces, in order.
pub open spec fn nonempty(ws: Seq<Seq<char>>) -> Seq<Seq<char>>
    decreases ws.len(),
{
    if ws.len() == 0 {
        Seq::empty()
    } else if ws.last().len() == 0 {
        nonempty(ws.drop_last())
    } else {
        nonempty(ws.drop_last()).push(ws.last())
    }
}

/// The words of `s`: what `str::split_whitespace` yields.
pub open spec fn words(s: Seq<char>) -> Seq<Seq<char>> {
    nonempty(fields(s))
}

/// The pieces of `cs` that the ranges `rs` cover, in order.
pub open spec fn pieces(cs: Seq<char>, rs: Seq<(usize, usize)>) -> Seq<Seq<char>> {
    rs.map_values(|r: (usize, usize)| cs.subrange(r.0 as int, r.1 as int))
}

/// Every range of `rs` lies inside `cs`, start before end.
pub open spec fn ranges_in(cs: Seq<char>, rs: Seq<(usize, usize)>) -> bool {
    forall|k: int| 0 <= k < rs.len() ==> #[trigger] rs[k].0 <= rs[k].1 <= cs.len()
}

/// Appends the range `(a, b)` of `cs` to `out`.
pub fn push_range(out: &mut Vec<(usize, usize)>, cs: &Vec<char>, a: usize, b: usize)
    requires
        ranges_in(cs@, old(out)@),
        a <= b <= cs@.len(),
    ensures
        ranges_in(cs@, final(out)@),
        final(out)@ == old(out)@.push((a, b)),
        pieces(cs@, final(out)@) == pieces(cs@, old(out)@).push(cs@.subrange(a as int, b as int)),
{
    out.push((a, b));
    assert(pieces(cs@, out@) =~= pieces(cs@, old(out)@).push(cs@.subrange(a as int, b as int)));
    assert forall|i: int| 0 <= i < out@.len() implies #[trigger] out@[i].0 <= out@[i].1 <= cs@.len() by {
        if i < old(out)@.len() {
            assert(out@[i] == old(out)@[i]);
        }
    }
}

proof fn lemma_fields_len(s: Seq<char>)
    ensures
        fields(s).len() >= 1,
    decreases s.len(),
{
    if s.len() > 0 {
        lemma_fields_len(s.drop_last());
    }
}

/// The ranges of the words of `cs[lo..hi]`.
pub fn word_ranges(cs: &Vec<char>, lo: usize, hi: usize) -> (r: Vec<(usize, usize)>)
    requires
        lo <= hi <= cs@.len(),
    ensures
        ranges_in(cs@, r@),
        pieces(cs@, r@) == words(cs@.subrange(lo as int, hi as int)),
{
    let ghost s = cs@.subrange(lo as int, hi as int);
    let mut out: Vec<(usize, usize)> = Vec::new();
    let mut start = lo;
    let mut i = lo;
    proof {
        assert(s.take(0) =~= Seq::<char>::empty());
        assert(fields(s.take(0)).drop_last() =~= Seq::<Seq<char>>::empty());
        assert(pieces(cs@, out@) =~= Seq::<Seq<char>>::empty());
        assert(cs@.subrange(start as int, i as int) =~= Seq::<char>::empty());
    }
    while i < hi
        invariant
            lo <= start <= i <= hi <= cs@.len(),
            s == cs@.subrange(lo as int, hi as int),
            ranges_in(cs@, out@),
            fields(s.take(i - lo)).last() == cs@.subrange(start as int, i as int),
            pieces(cs@, out@) == nonempty(fields(s.take(i - lo)).drop_last()),
        decreases hi - i,
    {
        let ghost f = fields(s.take(i - lo));
        let ghost g = fields(s.take(i + 1 - lo));
        proof {
            lemma_fields_len(s.take(i - lo));
            assert(s.take(i + 1 - lo).drop_last() =~= s.take(i - lo));
            assert(s.take(i + 1 - lo).last() == cs@[i as int]);
        }
        if is_whitespace(cs[i]) {
            proof {
                assert(g == f.push(Seq::<char>::empty()));
                assert(g.drop_last() =~= f);
            }
            if start < i {
                let ghost before = out@;
                push_range(&mut out, cs, start, i);
                proof {
                    assert(f.drop_last().push(f.last()) =~= f);
                    assert(out@.drop_last() =~= before);
                    assert(pieces(cs@, out@) =~= pieces(cs@, before).push(
                        cs@.subrange(start as int, i as int),
                    ));
                }
            } else {
                proof {
                    assert(f.drop_last().push(f.last()) =~= f);
                    assert(f.last().len() == 0);
                }
            }
            start = i + 1;
            proof {
                assert(cs@.subrange(start as int, (i + 1) as int) =~= Seq::<char>::empty());
            }
        } else {
            proof {
                assert(g == f.update(f.len() - 1, f.last().push(cs@[i as int])));
                assert(g.drop_last() =~= f.drop_last());
                assert(cs@.subrange(start as int, (i + 1) as int) =~= cs@.subrange(
                    start as int,
                    i as int,
                ).push(cs@[i as int]));
            }
        }
        i += 1;
    }
    let ghost f = fields(s.take(hi - lo));
    proof {
        lemma_fields_len(s.take(hi - lo));
        assert(s.take(hi - lo) =~= s);
        assert(f.drop_last().push(f.last()) =~= f);
    }
    if start < hi {
        let ghost before = out@;
        push_range(&mut out, cs, start, hi);
        proof {
            assert(out@.drop_last() =~= before);
            assert(pieces(cs@, out@) =~= pieces(cs@, before).push(
                cs@.subrange(start as int, hi as int),
            ));
        }
    }
    out
}

/// The fields of `s` cut at every character of `seps`; empty fields stay.
pub open spec fn fields_at(s: Seq<char>, seps: Seq<char>) -> Seq<Seq<char>>
    decreases s.len(),
{
    if s.len() == 0 {
        seq![Seq::<char>::empty()]
    } else if seps.contains(s.last()) {
        fields_at(s.drop_last(), seps).push(Seq::<char>::empty())
    } else {
        let f = fields_at(s.drop_last(), seps);
        f.update(f.len() - 1, f.last().push(s.last()))
    }
}

proof fn lemma_fields_at_len(s: Seq<char>, seps: Seq<char>)
    ensures
        fields_at(s, seps).len() >= 1,
    decreases s.len(),
{
    if s.len() > 0 {
        lemma_fields_at_len(s.drop_last(), seps);
    }
}

/// Whether `c` is one of `seps`.
pub fn is_separator(c: char, seps: &[char]) -> (r: bool)
    ensures
        r == seps@.contains(c),
{
    let mut k: usize = 0;
    while k < seps.len()
        invariant
            k <= seps@.len(),
            forall|m: int| 0 <= m < k ==> seps@[m] != c,
        decreases seps@.len() - k,
    {
        if seps[k] == c {
            assert(seps@[k as int] == c);
            return true;
        }
        k += 1;
    }
    false
}

/// The ranges of the non-empty pieces of `cs` between characters of `seps`.
pub fn separated_ranges(cs: &Vec<char>, seps: &[char]) -> (r: Vec<(usize, usize)>)
    ensures
        ranges_in(cs@, r@),
        pieces(cs@, r@) == nonempty(fields_at(cs@, seps@)),
{
    let lo: usize = 0;
    let hi: usize = cs.len();
    let ghost s = cs@.subrange(lo as int, hi as int);
    assert(s =~= cs@);
    let mut out: Vec<(usize, usize)> = Vec::new();
    let mut start = lo;
    let mut i = lo;
    proof {
        assert(s.take(0) =~= Seq::<char>::empty());
        assert(fields_at(s.take(0), seps@).drop_last() =~= Seq::<Seq<char>>::empty());
        assert(pieces(cs@, out@) =~= Seq::<Seq<char>>::empty());
        assert(cs@.subrange(start as int, i as int) =~= Seq::<char>::empty());
    }
    while i < hi
        invariant
            lo <= start <= i <= hi <= cs@.len(),
            s == cs@.subrange(lo as int, hi as int),
            ranges_in(cs@, out@),
            fields_at(s.take(i - lo), seps@).last() == cs@.subrange(start as int, i as int),
            pieces(cs@, out@) == nonempty(fields_at(s.take(i - lo), seps@).drop_last()),
        decreases hi - i,
    {
        let ghost f = fields_at(s.take(i - lo), seps@);
        let ghost g = fields_at(s.take(i + 1 - lo), seps@);
        proof {
            lemma_fields_at_len(s.take(i - lo), seps@);
            assert(s.take(i + 1 - lo).drop_last() =~= s.take(i - lo));
            assert(s.take(i + 1 - lo).last() == cs@[i as int]);
        }
        if is_separator(cs[i], seps) {
            proof {
                assert(g == f.push(Seq::<char>::empty()));
                assert(g.drop_last() =~= f);
            }
            if start < i {
                let ghost before = out@;
                push_range(&mut out, cs, start, i);
                proof {
                    assert(f.drop_last().push(f.last()) =~= f);
                    assert(out@.drop_last() =~= before);
                    assert(pieces(cs@, out@) =~= pieces(cs@, before).push(
                        cs@.subrange(start as int, i as int),
                    ));
                }
            } else {
                proof {
                    assert(f.drop_last().push(f.last()) =~= f);
                    assert(f.last().len() == 0);
                }
            }
            start = i + 1;
            proof {
                assert(cs@.subrange(start as int, (i + 1) as int) =~= Seq::<char>::empty());
            }
        } else {
            proof {
                assert(g == f.update(f.len() - 1, f.last().push(cs@[i as int])));
                assert(g.drop_last() =~= f.drop_last());
                assert(cs@.subrange(start as int, (i + 1) as int) =~= cs@.subrange(
                    start as int,
                    i as int,
                ).push(cs@[i as int]));
            }
        }
        i += 1;
    }
    let ghost f = fields_at(s.take(hi - lo), seps@);
    proof {
        lemma_fields_at_len(s.take(hi - lo), seps@);
        assert(s.take(hi - lo) =~= s);
        assert(f.drop_last().push(f.last()) =~= f);
    }
    if start < hi {
        let ghost before = out@;
        push_range(&mut out, cs, start, hi);
        proof {
            assert(out@.drop_last() =~= before);
            assert(pieces(cs@, out@) =~= pieces(cs@, before).push(
                cs@.subrange(start as int, hi as int),
            ));
        }
    }
    out
}

/// Whether the characters `cs[lo..hi]` are exactly `w`.
pub fn range_is(cs: &Vec<char>, lo: usize, hi: usize, w: &[char]) -> (r: bool)
    requires
        lo <= hi <= cs@.len(),
    ensures
        r == (cs@.subrange(lo as int, hi as int) == w@),
{
    if hi - lo != w.len() {
        return false;
    }
    let mut k: usize = 0;
    while k < w.len()
        invariant
            lo <= hi <= cs@.len(),
            hi - lo == w@.len(),
            k <= w@.len(),
            forall|m: int| 0 <= m < k ==> cs@[lo + m] == #[trigger] w@[m],
        decreases w@.len() - k,
    {
        if cs[lo + k] != w[k] {
            proof {
                assert(cs@.subrange(lo as int, hi as int)[k as int] != w@[k as int]);
            }
            return false;
        }
        k += 1;
    }
    assert(cs@.subrange(lo as int, hi as int) =~= w@);
    true
}

/// The pieces of `s` cut at the occurrences of `pat`, looked for from position `i` on
/// (leftmost first, without overlap): what `str::split` yields.
pub open spec fn split_from(s: Seq<char>, pat: Seq<char>, i: nat) -> Seq<Seq<char>>
    decreases s.len(), s.len() - i,
{
    if pat.len() == 0 || i + pat.len() > s.len() {
        seq![s]
    } else if s.subrange(i as int, (i + pat.len()) as int) == pat {
        seq![s.subrange(0, i as int)] + split_from(s.subrange((i + pat.len()) as int, s.len() as int), pat, 0)
    } else {
        split_from(s, pat, i + 1)
    }
}

/// The ranges of the pieces of `cs` cut at the occurrences of `pat` (not empty).
pub fn split_ranges(cs: &Vec<char>, pat: &[char]) -> (r: Vec<(usize, usize)>)
    requires
        pat@.len() > 0,
    ensures
        ranges_in(cs@, r@),
        pieces(cs@, r@) == split_from(cs@, pat@, 0),
{
    let n = cs.len();
    let plen = pat.len();
    let mut out: Vec<(usize, usize)> = Vec::new();
    let mut start: usize = 0;
    let mut i: usize = 0;
    proof {
        assert(cs@.subrange(0, n as int) =~= cs@);
        assert(pieces(cs@, out@) + split_from(cs@.subrange(start as int, n as int), pat@, 0)
            =~= split_from(cs@, pat@, 0));
    }
    while plen <= n - i
        invariant
            n == cs@.len(),
            plen == pat@.len(),
            plen > 0,
            start <= i <= n,
            ranges_in(cs@, out@),
            pieces(cs@, out@) + split_from(cs@.subrange(start as int, n as int), pat@, (i - start) as nat)
                == split_from(cs@, pat@, 0),
        decreases n - i,
    {
        let ghost t = cs@.subrange(start as int, n as int);
        let ghost k = (i - start) as nat;
        proof {
            assert(t.subrange(k as int, k + plen) =~= cs@.subrange(i as int, i + plen));
        }
        if range_is(cs, i, i + plen, pat) {
            let ghost before = out@;
            push_range(&mut out, cs, start, i);
            proof {
                assert(t.subrange(0, k as int) =~= cs@.subrange(start as int, i as int));
                assert(t.subrange(k + plen, t.len() as int) =~= cs@.subrange(i + plen, n as int));
                assert(out@.drop_last() =~= before);
                assert(pieces(cs@, out@) =~= pieces(cs@, before).push(cs@.subrange(start as int, i as int)));
                assert(pieces(cs@, out@) + split_from(cs@.subrange(i + plen, n as int), pat@, 0)
                    =~= pieces(cs@, before) + split_from(t, pat@, k));
            }
            start = i + plen;
            i = start;
        } else {
            i += 1;
        }
    }
    let ghost before = out@;
    out.push((start, n));
    proof {
        assert(out@.drop_last() =~= before);
        assert(pieces(cs@, out@) =~= pieces(cs@, before).push(cs@.subrange(start as int, n as int)));
        assert(pieces(cs@, out@) =~= pieces(cs@, before) + seq![cs@.subrange(start as int, n as int)]);
    }
    out
}

} // verus!
