//! Chapters as (time, title) pairs, the line-oriented save format, and
//! canonicalization of a matched time token.

use crate::text::{
    dec_str, find_first, min2_str, parse_or_zero, split_at, trim, u64_to_min2_string,
    u64_to_string,
};
use vstd::prelude::*;
use vstd::string::StrSliceExecFns;
use vstd::string::StringExecFns;

verus! {

/// A named point in a media timeline: a time string (canonical
/// `H:MM:SS.mmm` when produced by parsing) and a title.
#[derive(Clone, Debug, PartialEq, Eq)]
pub struct Chapter {
    pub time: String,
    pub title: String,
}

/// The (time, title) character sequences of each chapter, the shape the
/// contracts speak of.
pub open spec fn chapter_views(cs: Seq<Chapter>) -> Seq<(Seq<char>, Seq<char>)> {
    cs.map_values(|c: Chapter| (c.time@, c.title@))
}

/// One saved line: time, one space, title.
pub open spec fn spec_chapter_line(p: (Seq<char>, Seq<char>)) -> Seq<char> {
    p.0 + seq![' '] + p.1
}

/// The saved text: lines joined with newlines, no trailing newline.
pub open spec fn spec_serialize_lines(ps: Seq<(Seq<char>, Seq<char>)>) -> Seq<char>
    decreases ps.len(),
{
    if ps.len() == 0 {
        Seq::<char>::empty()
    } else if ps.len() == 1 {
        spec_chapter_line(ps[0])
    } else {
        spec_chapter_line(ps[0]) + seq!['\n'] + spec_serialize_lines(ps.drop_first())
    }
}

proof fn lemma_serialize_snoc(ps: Seq<(Seq<char>, Seq<char>)>, p: (Seq<char>, Seq<char>))
    ensures
        spec_serialize_lines(ps.push(p)) == if ps.len() == 0 {
            spec_chapter_line(p)
        } else {
            spec_serialize_lines(ps) + seq!['\n'] + spec_chapter_line(p)
        },
    decreases ps.len(),
{
    let q = ps.push(p);
    if ps.len() == 0 {
        assert(q.len() == 1);
        assert(q[0] == p);
    } else {
        assert(q[0] == ps[0]);
        assert(q.drop_first() =~= ps.drop_first().push(p));
        lemma_serialize_snoc(ps.drop_first(), p);
        if ps.len() == 1 {
            assert(spec_serialize_lines(ps) == spec_chapter_line(ps[0]));
        } else {
            assert(spec_serialize_lines(q) =~= spec_serialize_lines(ps) + seq!['\n']
                + spec_chapter_line(p));
        }
    }
}

/// Serialize chapters to the saved text: `"{time} {title}"` per line,
/// newline separated.
pub fn serialize_lines(chapters: &Vec<Chapter>) -> (r: String)
    ensures
        r@ == spec_serialize_lines(chapter_views(chapters@)),
{
    let mut out = String::new();
    let mut i: usize = 0;
    proof {
        assert(chapter_views(chapters@.take(0)) =~= Seq::<(Seq<char>, Seq<char>)>::empty());
    }
    while i < chapters.len()
        invariant
            0 <= i <= chapters@.len(),
            out@ == spec_serialize_lines(chapter_views(chapters@.take(i as int))),
        decreases chapters@.len() - i,
    {
        let ghost prefix = chapter_views(chapters@.take(i as int));
        if i > 0 {
            out.append("\n");
        }
        out.append(chapters[i].time.as_str());
        out.append(" ");
        out.append(chapters[i].title.as_str());
        proof {
            reveal_strlit("\n");
            reveal_strlit(" ");
            let p = (chapters@[i as int].time@, chapters@[i as int].title@);
            assert(chapter_views(chapters@.take(i + 1)) =~= prefix.push(p));
            lemma_serialize_snoc(prefix, p);
            assert(prefix.len() == i);
            assert("\n"@ =~= seq!['\n']);
            assert(" "@ =~= seq![' ']);
            assert(spec_chapter_line(p) =~= p.0 + seq![' '] + p.1);
            assert(out@ =~= spec_serialize_lines(chapter_views(chapters@.take(i + 1))));
        }
        i += 1;
    }
    proof {
        assert(chapters@.take(chapters@.len() as int) =~= chapters@);
    }
    out
}

/// How a saved line is read back: the part before the first space is
/// the time, the rest the title; with no space the whole line is the
/// time and the title is empty.
pub open spec fn split_first_space(line: Seq<char>) -> (Seq<char>, Seq<char>) {
    let k = find_first(line, ' ');
    if k < line.len() {
        (line.take(k), line.skip(k + 1))
    } else {
        (line, Seq::<char>::empty())
    }
}

/// Chapters read from a sequence of lines: whitespace-only lines are
/// dropped, every other line is split at its first space.
pub open spec fn chapters_of_lines(lines: Seq<Seq<char>>) -> Seq<(Seq<char>, Seq<char>)>
    decreases lines.len(),
{
    if lines.len() == 0 {
        Seq::<(Seq<char>, Seq<char>)>::empty()
    } else {
        let rest = chapters_of_lines(lines.drop_first());
        if trim(lines[0]).len() == 0 {
            rest
        } else {
            seq![split_first_space(lines[0])] + rest
        }
    }
}

/// One trailing carriage return removed: splitting CRLF text on `'\n'`
/// leaves one at the end of every line but the last.
pub open spec fn strip_last_cr(l: Seq<char>) -> Seq<char> {
    if l.len() > 0 && l.last() == '\r' {
        l.drop_last()
    } else {
        l
    }
}

/// What loading saved text yields: lines split on `'\n'`, each rid of
/// one trailing carriage return, blank lines dropped, the rest split at
/// their first space.
pub open spec fn spec_deserialize_lines(s: Seq<char>) -> Seq<(Seq<char>, Seq<char>)> {
    chapters_of_lines(split_at(s, '\n').map_values(|l: Seq<char>| strip_last_cr(l)))
}

proof fn lemma_chapters_of_lines_snoc(lines: Seq<Seq<char>>, l: Seq<char>)
    ensures
        chapters_of_lines(lines.push(l)) == if trim(l).len() == 0 {
            chapters_of_lines(lines)
        } else {
            chapters_of_lines(lines) + seq![split_first_space(l)]
        },
    decreases lines.len(),
{
    let q = lines.push(l);
    if lines.len() == 0 {
        reveal_with_fuel(chapters_of_lines, 2);
        assert(q.len() == 1);
        assert(q[0] == l);
        assert(q.drop_first() =~= Seq::<Seq<char>>::empty());
        if trim(l).len() != 0 {
            assert(chapters_of_lines(q) =~= chapters_of_lines(lines) + seq![split_first_space(l)]);
        }
    } else {
        assert(q[0] == lines[0]);
        assert(q.drop_first() =~= lines.drop_first().push(l));
        lemma_chapters_of_lines_snoc(lines.drop_first(), l);
        if trim(l).len() == 0 {
        } else {
            assert(chapters_of_lines(q) =~= chapters_of_lines(lines) + seq![split_first_space(l)]);
        }
    }
}

/// Load saved text: split on newlines, strip one trailing carriage
/// return per line (as CRLF files need), drop blank lines, split each
/// remaining line at its first space into time and title.
pub fn deserialize_lines(text: &str) -> (r: Vec<Chapter>)
    ensures
        chapter_views(r@) == spec_deserialize_lines(text@),
{
    let lines = crate::text::split_str(text, '\n');
    let ghost mlines = lines.deep_view().map_values(|l: Seq<char>| strip_last_cr(l));
    let mut out: Vec<Chapter> = Vec::new();
    let mut i: usize = 0;
    proof {
        assert(chapter_views(out@) =~= Seq::<(Seq<char>, Seq<char>)>::empty());
        assert(mlines.take(0) =~= Seq::<Seq<char>>::empty());
    }
    while i < lines.len()
        invariant
            0 <= i <= lines@.len(),
            mlines == lines.deep_view().map_values(|l: Seq<char>| strip_last_cr(l)),
            mlines == split_at(text@, '\n').map_values(|l: Seq<char>| strip_last_cr(l)),
            mlines.len() == lines@.len(),
            chapter_views(out@) == chapters_of_lines(mlines.take(i as int)),
        decreases lines@.len() - i,
    {
        let line = &lines[i];
        let llen = line.as_str().unicode_len();
        let elen: usize = if llen > 0 && line.as_str().get_char(llen - 1) == '\r' {
            llen - 1
        } else {
            llen
        };
        let eff = line.as_str().substring_char(0, elen);
        proof {
            assert(lines.deep_view()[i as int] == lines@[i as int]@);
            assert(mlines[i as int] == strip_last_cr(lines.deep_view()[i as int]));
            assert(eff@ =~= mlines[i as int]);
        }
        if !crate::text::is_blank(eff) {
            let len = eff.unicode_len();
            let k = crate::text::find_first_exec(eff, ' ');
            let ch = if k < len {
                Chapter {
                    time: eff.substring_char(0, k).to_owned(),
                    title: eff.substring_char(k + 1, len).to_owned(),
                }
            } else {
                Chapter { time: eff.to_owned(), title: String::new() }
            };
            let ghost chv = (ch.time@, ch.title@);
            let ghost old_views = chapter_views(out@);
            out.push(ch);
            proof {
                let l = mlines[i as int];
                if find_first(l, ' ') < l.len() {
                    assert(chv.0 =~= l.take(find_first(l, ' ')));
                    assert(chv.1 =~= l.skip(find_first(l, ' ') + 1));
                } else {
                    assert(chv.0 =~= l);
                    assert(chv.1 =~= Seq::<char>::empty());
                }
                assert(chv == split_first_space(l));
                assert(chapter_views(out@) =~= old_views + seq![chv]);
                lemma_chapters_of_lines_snoc(mlines.take(i as int), l);
                assert(mlines.take(i + 1) =~= mlines.take(i as int).push(l));
            }
        } else {
            proof {
                let l = mlines[i as int];
                lemma_chapters_of_lines_snoc(mlines.take(i as int), l);
                assert(mlines.take(i + 1) =~= mlines.take(i as int).push(l));
            }
        }
        i += 1;
    }
    proof {
        assert(mlines.take(lines@.len() as int) =~= mlines);
    }
    out
}

/// A chapter the saved format represents faithfully: the time is
/// non-empty and holds no space or newline, the title holds no newline
/// and does not end with a carriage return (loading strips one), and
/// the saved line is not whitespace-only (loading drops those).
/// A canonical time string with any title free of `'\n'` and of a
/// trailing `'\r'` satisfies all of this.
pub open spec fn round_trip_pair(p: (Seq<char>, Seq<char>)) -> bool {
    &&& p.0.len() > 0
    &&& forall|i: int| 0 <= i < p.0.len() ==> p.0[i] != ' ' && p.0[i] != '\n'
    &&& forall|i: int| 0 <= i < p.1.len() ==> p.1[i] != '\n'
    &&& (p.1.len() > 0 ==> p.1.last() != '\r')
    &&& trim(spec_chapter_line(p)).len() > 0
}

proof fn lemma_split_line(p: (Seq<char>, Seq<char>))
    requires
        round_trip_pair(p),
    ensures
        split_first_space(spec_chapter_line(p)) == p,
        trim(spec_chapter_line(p)).len() > 0,
        strip_last_cr(spec_chapter_line(p)) == spec_chapter_line(p),
        forall|i: int|
            0 <= i < spec_chapter_line(p).len() ==> #[trigger] spec_chapter_line(p)[i] != '\n',
{
    let line = spec_chapter_line(p);
    let k = p.0.len() as int;
    assert(forall|i: int| 0 <= i < k ==> line[i] == p.0[i] && line[i] != ' ');
    assert(line[k] == ' ');
    crate::text::lemma_find_first_characterization(line, ' ', k);
    assert(line.take(k) =~= p.0);
    assert(line.skip(k + 1) =~= p.1);
    assert(split_first_space(line) == p);
    if p.1.len() > 0 {
        assert(line.last() == p.1.last());
    } else {
        assert(line.last() == ' ');
    }
    assert(forall|i: int| k < i < line.len() ==> line[i] == p.1[i - k - 1]);
}

/// Saving a chapter list and loading the text back yields the same
/// list, for chapters whose fields the format can carry (see
/// `round_trip_pair`).
pub proof fn lemma_lines_round_trip(ps: Seq<(Seq<char>, Seq<char>)>)
    requires
        forall|j: int| 0 <= j < ps.len() ==> round_trip_pair(#[trigger] ps[j]),
    ensures
        spec_deserialize_lines(spec_serialize_lines(ps)) == ps,
    decreases ps.len(),
{
    reveal_with_fuel(chapters_of_lines, 2);
    let f = |l: Seq<char>| strip_last_cr(l);
    if ps.len() == 0 {
        let s = spec_serialize_lines(ps);
        assert(s.len() == 0);
        assert(crate::text::split_at(s, '\n') == seq![Seq::<char>::empty()]);
        assert(crate::text::split_at(s, '\n').map_values(f) =~= seq![Seq::<char>::empty()]);
        assert(trim(Seq::<char>::empty()).len() == 0);
        assert(spec_deserialize_lines(s) =~= ps);
    } else if ps.len() == 1 {
        let p = ps[0];
        let line = spec_chapter_line(p);
        lemma_split_line(p);
        crate::text::lemma_split_at_whole(line, '\n');
        let mlines = crate::text::split_at(line, '\n').map_values(f);
        assert(mlines =~= seq![line]);
        assert(mlines.drop_first() =~= Seq::<Seq<char>>::empty());
        assert(spec_deserialize_lines(line) =~= ps);
    } else {
        let p = ps[0];
        let line = spec_chapter_line(p);
        let rest_text = spec_serialize_lines(ps.drop_first());
        let s = spec_serialize_lines(ps);
        assert(s == line + seq!['\n'] + rest_text);
        lemma_split_line(p);
        let k = line.len() as int;
        assert(forall|i: int| 0 <= i < k ==> s[i] == line[i] && s[i] != '\n');
        assert(s[k] == '\n');
        crate::text::lemma_split_at_step(s, '\n', k);
        assert(s.take(k) =~= line);
        assert(s.skip(k + 1) =~= rest_text);
        assert(forall|j: int|
            0 <= j < ps.drop_first().len() ==> ps.drop_first()[j] == ps[j + 1]);
        lemma_lines_round_trip(ps.drop_first());
        let lines = seq![line] + crate::text::split_at(rest_text, '\n');
        assert(crate::text::split_at(s, '\n') == lines);
        let mlines = lines.map_values(f);
        assert(mlines[0] == line);
        assert(mlines.drop_first() =~= crate::text::split_at(rest_text, '\n').map_values(f));
        assert(chapters_of_lines(mlines) == seq![split_first_space(line)] + chapters_of_lines(
            crate::text::split_at(rest_text, '\n').map_values(f),
        ));
        assert(spec_deserialize_lines(s) =~= ps);
    }
}

/// The millisecond field of a canonical time string: the fraction text
/// cut to its first three characters and right-padded with `'0'` to
/// exactly three (so "5" becomes "500" and "12345" becomes "123").
pub open spec fn pad_frac_3(f: Seq<char>) -> Seq<char> {
    let t = if f.len() <= 3 {
        f
    } else {
        f.take(3)
    };
    t + Seq::new((3 - t.len()) as nat, |i: int| '0')
}

/// The canonical `H:MM:SS.mmm` rendering: unpadded hours, minutes and
/// seconds zero-padded to at least two digits, three fraction characters.
pub open spec fn norm_hms(h: int, m: int, sec: int, f: Seq<char>) -> Seq<char> {
    dec_str(h as nat) + seq![':'] + min2_str(m as nat) + seq![':'] + min2_str(sec as nat)
        + seq!['.'] + pad_frac_3(f)
}

/// What normalizing a time token yields. The token is cut at its first
/// dot; the part before splits on `:` into (minutes, seconds) or
/// (hours, minutes, seconds), each component read as a decimal number
/// with zero for anything unparsable; any other component count returns
/// the token unchanged. The part after the first dot (empty when there
/// is no dot) becomes the three-character millisecond field.
pub open spec fn spec_normalize_time(s: Seq<char>) -> Seq<char> {
    let dot = find_first(s, '.');
    let time_part = s.take(dot);
    let frac = if dot < s.len() {
        s.skip(dot + 1)
    } else {
        Seq::<char>::empty()
    };
    let comps = split_at(time_part, ':');
    if comps.len() == 2 {
        norm_hms(0, parse_or_zero(comps[0]), parse_or_zero(comps[1]), frac)
    } else if comps.len() == 3 {
        norm_hms(parse_or_zero(comps[0]), parse_or_zero(comps[1]), parse_or_zero(comps[2]), frac)
    } else {
        s
    }
}

/// Canonicalize a time token to `H:MM:SS.mmm`; see `spec_normalize_time`.
/// Unparsable numeric components default to zero rather than failing.
#[verifier::rlimit(60)]
pub fn normalize_time(time_str: &str) -> (r: String)
    ensures
        r@ == spec_normalize_time(time_str@),
{
    let len = time_str.unicode_len();
    let dot = crate::text::find_first_exec(time_str, '.');
    let time_part = time_str.substring_char(0, dot);
    proof {
        assert(time_part@ == time_str@.take(dot as int));
    }
    let comps = crate::text::split_str(time_part, ':');
    if !(comps.len() == 2 || comps.len() == 3) {
        proof {
            assert(comps.deep_view().len() == comps@.len());
        }
        return time_str.to_owned();
    }
    let h: u64;
    let m: u64;
    let sec: u64;
    if comps.len() == 2 {
        h = 0;
        m = crate::text::parse_digits_or_zero(comps[0].as_str());
        sec = crate::text::parse_digits_or_zero(comps[1].as_str());
    } else {
        h = crate::text::parse_digits_or_zero(comps[0].as_str());
        m = crate::text::parse_digits_or_zero(comps[1].as_str());
        sec = crate::text::parse_digits_or_zero(comps[2].as_str());
    }
    proof {
        assert(comps.deep_view().len() == comps@.len());
        assert(forall|i: int|
            0 <= i < comps@.len() ==> comps.deep_view()[i] == #[trigger] comps@[i]@);
    }
    let mut out = u64_to_string(h);
    out.append(":");
    out.append(u64_to_min2_string(m).as_str());
    out.append(":");
    out.append(u64_to_min2_string(sec).as_str());
    out.append(".");
    let ghost frac_view = if dot < len {
        time_str@.skip(dot + 1)
    } else {
        Seq::<char>::empty()
    };
    let mut flen: usize = 0;
    let mut cut: usize = 0;
    if dot < len {
        flen = len - (dot + 1);
        cut = if flen > 3 {
            3
        } else {
            flen
        };
        let frac_cut = time_str.substring_char(dot + 1, dot + 1 + cut);
        out.append(frac_cut);
        proof {
            assert(frac_view.len() == flen);
            if flen > 3 {
                assert(frac_cut@ =~= frac_view.take(3));
            } else {
                assert(frac_cut@ =~= frac_view);
            }
        }
    }
    if cut == 0 {
        out.append("000");
    } else if cut == 1 {
        out.append("00");
    } else if cut == 2 {
        out.append("0");
    }
    proof {
        reveal_strlit(":");
        reveal_strlit(".");
        reveal_strlit("0");
        reveal_strlit("00");
        reveal_strlit("000");
        let t = if frac_view.len() <= 3 {
            frac_view
        } else {
            frac_view.take(3)
        };
        if cut == 0 {
            assert("000"@ =~= Seq::new((3 - t.len()) as nat, |i: int| '0'));
        } else if cut == 1 {
            assert("00"@ =~= Seq::new((3 - t.len()) as nat, |i: int| '0'));
        } else if cut == 2 {
            assert("0"@ =~= Seq::new((3 - t.len()) as nat, |i: int| '0'));
        } else {
            assert(Seq::new((3 - t.len()) as nat, |i: int| '0') =~= Seq::<char>::empty());
        }
        assert(out@ =~= spec_normalize_time(time_str@));
    }
    out
}

} // verus!
