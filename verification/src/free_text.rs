//! Free-form chapter extraction: scanning pasted text for time tokens
//! and pairing each with the title text around it.

use crate::chapters::{chapter_views, normalize_time, spec_normalize_time, Chapter};
use crate::text::{
    clean_title, clean_title_of, is_digit, is_digit_exec, line_title, line_title_of, split_at, trim,
};
use vstd::prelude::*;
use vstd::string::StrSliceExecFns;

verus! {

/// Length of the time token starting at position `i`, or zero when none
/// starts there. The shapes, tried in this order, are `H:MM:SS.mmm`,
/// `M:SS.mmm`, `H:MM:SS` and `M:SS`, with one or two leading digits; a
/// two-digit run is preferred, as a greedy leftmost-first match does.
pub open spec fn token_len_at(s: Seq<char>, i: int) -> int {
    if !(0 <= i && i < s.len() && is_digit(s[i])) {
        0
    } else {
        let hl: int = if i + 1 < s.len() && is_digit(s[i + 1]) {
            2
        } else {
            1
        };
        if !(i + hl + 3 <= s.len() && s[i + hl] == ':' && is_digit(s[i + hl + 1]) && is_digit(
            s[i + hl + 2],
        )) {
            0
        } else {
            let b = i + hl + 3;
            if b + 7 <= s.len() && s[b] == ':' && is_digit(s[b + 1]) && is_digit(s[b + 2]) && s[b
                + 3] == '.' && is_digit(s[b + 4]) && is_digit(s[b + 5]) && is_digit(s[b + 6]) {
                hl + 10
            } else if b + 4 <= s.len() && s[b] == '.' && is_digit(s[b + 1]) && is_digit(s[b + 2])
                && is_digit(s[b + 3]) {
                hl + 7
            } else if b + 3 <= s.len() && s[b] == ':' && is_digit(s[b + 1]) && is_digit(s[b + 2]) {
                hl + 6
            } else {
                hl + 3
            }
        }
    }
}

fn token_len_exec(s: &str, i: usize, len: usize) -> (r: usize)
    requires
        len == s@.len(),
    ensures
        r as int == token_len_at(s@, i as int),
        r > 0 ==> i + r <= len,
{
    if !(i < len && is_digit_exec(s.get_char(i))) {
        return 0;
    }
    let hl: usize = if i + 1 < len && is_digit_exec(s.get_char(i + 1)) {
        2
    } else {
        1
    };
    let rem = len - i;
    if !(hl + 3 <= rem && s.get_char(i + hl) == ':' && is_digit_exec(s.get_char(i + hl + 1))
        && is_digit_exec(s.get_char(i + hl + 2))) {
        return 0;
    }
    let b = i + hl + 3;
    let brem = len - b;
    if brem >= 7 && s.get_char(b) == ':' && is_digit_exec(s.get_char(b + 1)) && is_digit_exec(
        s.get_char(b + 2),
    ) && s.get_char(b + 3) == '.' && is_digit_exec(s.get_char(b + 4)) && is_digit_exec(
        s.get_char(b + 5),
    ) && is_digit_exec(s.get_char(b + 6)) {
        hl + 10
    } else if brem >= 4 && s.get_char(b) == '.' && is_digit_exec(s.get_char(b + 1)) && is_digit_exec(
        s.get_char(b + 2),
    ) && is_digit_exec(s.get_char(b + 3)) {
        hl + 7
    } else if brem >= 3 && s.get_char(b) == ':' && is_digit_exec(s.get_char(b + 1)) && is_digit_exec(
        s.get_char(b + 2),
    ) {
        hl + 6
    } else {
        hl + 3
    }
}

/// The first token at or after position `p`: its start and length.
pub open spec fn spec_find_token(s: Seq<char>, p: int) -> Option<(int, int)>
    decreases s.len() - p,
{
    if p < 0 || p >= s.len() {
        None
    } else if token_len_at(s, p) > 0 {
        Some((p, token_len_at(s, p)))
    } else {
        spec_find_token(s, p + 1)
    }
}

pub proof fn lemma_find_token_props(s: Seq<char>, p: int)
    ensures
        spec_find_token(s, p) matches Some(t) ==> p <= t.0 < s.len() && 0 < t.1 && t.0 + t.1
            <= s.len() && token_len_at(s, t.0) == t.1,
    decreases s.len() - p,
{
    if p < 0 || p >= s.len() {
    } else if token_len_at(s, p) > 0 {
    } else {
        lemma_find_token_props(s, p + 1);
    }
}

fn find_token_exec(s: &str, p: usize, len: usize) -> (r: Option<(usize, usize)>)
    requires
        len == s@.len(),
    ensures
        match r {
            Some(t) => spec_find_token(s@, p as int) == Some((t.0 as int, t.1 as int)) && p <= t.0
                && 0 < t.1 && t.0 + t.1 <= len,
            None => spec_find_token(s@, p as int) is None,
        },
{
    let mut q = p;
    if q >= len {
        return None;
    }
    while q < len
        invariant
            p <= q <= len,
            len == s@.len(),
            spec_find_token(s@, p as int) == spec_find_token(s@, q as int),
        decreases len - q,
    {
        let l = token_len_exec(s, q, len);
        if l > 0 {
            return Some((q, l));
        }
        q += 1;
    }
    None
}

/// All tokens of a line, found left to right, each search resuming at
/// the end of the token before, as a global scan does.
pub open spec fn spec_all_tokens(s: Seq<char>, p: int) -> Seq<(int, int)>
    decreases s.len() - p,
{
    match spec_find_token(s, p) {
        None => Seq::<(int, int)>::empty(),
        Some(t) => if p < t.0 + t.1 && t.0 + t.1 <= s.len() {
            seq![t] + spec_all_tokens(s, t.0 + t.1)
        } else {
            seq![t]
        },
    }
}

/// Every found token lies in bounds and strictly after the one before.
pub proof fn lemma_all_tokens_props(s: Seq<char>, p: int)
    ensures
        forall|i: int|
            0 <= i < spec_all_tokens(s, p).len() ==> {
                let t = #[trigger] spec_all_tokens(s, p)[i];
                &&& p <= t.0
                &&& 0 < t.1
                &&& t.0 + t.1 <= s.len()
                &&& (i + 1 < spec_all_tokens(s, p).len() ==> t.0 + t.1 <= spec_all_tokens(
                    s,
                    p,
                )[i + 1].0)
            },
    decreases s.len() - p,
{
    lemma_find_token_props(s, p);
    match spec_find_token(s, p) {
        None => {
        },
        Some(t) => {
            lemma_all_tokens_props(s, t.0 + t.1);
            let ts = spec_all_tokens(s, p);
            let rest = spec_all_tokens(s, t.0 + t.1);
            assert(ts == seq![t] + rest);
            assert(forall|i: int| 1 <= i < ts.len() ==> ts[i] == rest[i - 1]);
            if rest.len() > 0 {
                assert(rest[0].0 >= t.0 + t.1);
            }
        },
    }
}

spec fn tok_views(v: Seq<(usize, usize)>) -> Seq<(int, int)> {
    v.map_values(|t: (usize, usize)| (t.0 as int, t.1 as int))
}

fn collect_tokens(s: &str, len: usize) -> (toks: Vec<(usize, usize)>)
    requires
        len == s@.len(),
    ensures
        tok_views(toks@) == spec_all_tokens(s@, 0),
        toks@.len() == spec_all_tokens(s@, 0).len(),
{
    let mut toks: Vec<(usize, usize)> = Vec::new();
    let mut p: usize = 0;
    proof {
        assert(tok_views(toks@) =~= Seq::<(int, int)>::empty());
    }
    loop
        invariant
            0 <= p <= len,
            len == s@.len(),
            tok_views(toks@).len() == toks@.len(),
            spec_all_tokens(s@, 0) == tok_views(toks@) + spec_all_tokens(s@, p as int),
        decreases len - p,
    {
        match find_token_exec(s, p, len) {
            None => {
                proof {
                    assert(spec_all_tokens(s@, p as int) =~= Seq::<(int, int)>::empty());
                    assert(tok_views(toks@) =~= spec_all_tokens(s@, 0));
                }
                return toks;
            },
            Some(t) => {
                let (st, l) = t;
                let ghost old_views = tok_views(toks@);
                toks.push((st, l));
                proof {
                    assert(tok_views(toks@) =~= old_views.push((st as int, l as int)));
                    assert(spec_all_tokens(s@, p as int) == seq![(st as int, l as int)]
                        + spec_all_tokens(s@, st + l));
                    assert(spec_all_tokens(s@, 0) =~= tok_views(toks@) + spec_all_tokens(
                        s@,
                        st + l,
                    ));
                }
                p = st + l;
            },
        }
    }
}

/// Chapters of a single line holding several tokens: each token's title
/// is the cleaned text up to the next token (or the line end), and
/// chapters whose cleaned title is empty are dropped.
pub open spec fn chapters_from_tokens(
    line: Seq<char>,
    toks: Seq<(int, int)>,
    i: int,
) -> Seq<(Seq<char>, Seq<char>)>
    decreases toks.len() - i,
{
    if i < 0 || i >= toks.len() {
        Seq::<(Seq<char>, Seq<char>)>::empty()
    } else {
        let st = toks[i].0;
        let l = toks[i].1;
        let end = if i + 1 < toks.len() {
            toks[i + 1].0
        } else {
            line.len() as int
        };
        let title = clean_title_of(line.subrange(st + l, end));
        let rest = chapters_from_tokens(line, toks, i + 1);
        if title.len() == 0 {
            rest
        } else {
            seq![(spec_normalize_time(line.subrange(st, st + l)), title)] + rest
        }
    }
}

/// Chapters of newline-separated text: each line is trimmed, blank
/// lines and lines without a token are dropped, the first token of a
/// line is its time, and everything after it — trimmed, then stripped
/// of leading `-`/space only — is its title, dropped when empty.
pub open spec fn chapters_from_text_lines(lines: Seq<Seq<char>>, i: int) -> Seq<
    (Seq<char>, Seq<char>),
>
    decreases lines.len() - i,
{
    if i < 0 || i >= lines.len() {
        Seq::<(Seq<char>, Seq<char>)>::empty()
    } else {
        let t = trim(lines[i]);
        let rest = chapters_from_text_lines(lines, i + 1);
        if t.len() == 0 {
            rest
        } else {
            match spec_find_token(t, 0) {
                None => rest,
                Some(tok) => {
                    let title = line_title_of(t.skip(tok.0 + tok.1));
                    if title.len() == 0 {
                        rest
                    } else {
                        seq![(spec_normalize_time(t.subrange(tok.0, tok.0 + tok.1)), title)] + rest
                    }
                },
            }
        }
    }
}

/// What free-text parsing yields. Text without a newline is one line:
/// it produces chapters only when it holds at least two tokens (a lone
/// timestamp is discarded). Otherwise every line is handled on its own,
/// with no look-ahead to the next line.
pub open spec fn spec_parse_free_text(s: Seq<char>) -> Seq<(Seq<char>, Seq<char>)> {
    let lines = split_at(s, '\n');
    if lines.len() == 1 && lines[0].len() > 0 {
        let toks = spec_all_tokens(lines[0], 0);
        if toks.len() <= 1 {
            Seq::<(Seq<char>, Seq<char>)>::empty()
        } else {
            chapters_from_tokens(lines[0], toks, 0)
        }
    } else {
        chapters_from_text_lines(lines, 0)
    }
}

/// Extract chapters from pasted free-form text; see
/// `spec_parse_free_text`. Never fails: text without a recognizable
/// chapter yields an empty list.
pub fn parse_free_text(text: &str) -> (r: Vec<Chapter>)
    ensures
        chapter_views(r@) == spec_parse_free_text(text@),
{
    let lines = crate::text::split_str(text, '\n');
    let mut out: Vec<Chapter> = Vec::new();
    proof {
        assert(chapter_views(out@) =~= Seq::<(Seq<char>, Seq<char>)>::empty());
        assert(lines.deep_view()[0] == lines@[0]@);
    }
    if lines.len() == 1 && !lines[0].as_str().is_empty() {
        let line = lines[0].as_str();
        let len = line.unicode_len();
        proof {
            assert(line@ == lines.deep_view()[0]);
        }
        let toks = collect_tokens(line, len);
        if toks.len() <= 1 {
            return out;
        }
        let ghost ts = tok_views(toks@);
        proof {
            lemma_all_tokens_props(line@, 0);
        }
        let mut i: usize = 0;
        while i < toks.len()
            invariant
                0 <= i <= toks@.len(),
                len == line@.len(),
                ts == tok_views(toks@),
                ts == spec_all_tokens(line@, 0),
                ts.len() == toks@.len(),
                forall|j: int|
                    0 <= j < ts.len() ==> {
                        let t = #[trigger] ts[j];
                        &&& 0 <= t.0
                        &&& 0 < t.1
                        &&& t.0 + t.1 <= len
                        &&& (j + 1 < ts.len() ==> t.0 + t.1 <= ts[j + 1].0)
                    },
                chapter_views(out@) + chapters_from_tokens(line@, ts, i as int)
                    == chapters_from_tokens(line@, ts, 0),
            decreases toks@.len() - i,
        {
            let st = toks[i].0;
            let l = toks[i].1;
            proof {
                assert(ts[i as int] == (st as int, l as int));
            }
            let end: usize = if i + 1 < toks.len() {
                proof {
                    assert(ts[i as int].0 + ts[i as int].1 <= ts[i + 1].0);
                    assert(ts[i + 1] == (toks@[i + 1].0 as int, toks@[i + 1].1 as int));
                }
                toks[i + 1].0
            } else {
                len
            };
            let title = clean_title(line.substring_char(st + l, end));
            if !title.as_str().is_empty() {
                let time = normalize_time(line.substring_char(st, st + l));
                let ghost tv = (time@, title@);
                let ghost old_views = chapter_views(out@);
                out.push(Chapter { time, title });
                proof {
                    assert(chapter_views(out@) =~= old_views.push(tv));
                    assert(chapter_views(out@) + chapters_from_tokens(line@, ts, i + 1)
                        =~= chapters_from_tokens(line@, ts, 0));
                }
            } else {
                proof {
                    assert(chapter_views(out@) + chapters_from_tokens(line@, ts, i + 1)
                        =~= chapters_from_tokens(line@, ts, 0));
                }
            }
            i += 1;
        }
        proof {
            assert(chapters_from_tokens(line@, ts, toks@.len() as int) =~= Seq::<
                (Seq<char>, Seq<char>),
            >::empty());
            assert(chapter_views(out@) =~= chapters_from_tokens(line@, ts, 0));
        }
        return out;
    }
    let ghost dv = lines.deep_view();
    proof {
        assert(!(dv.len() == 1 && dv[0].len() > 0));
    }
    let mut i: usize = 0;
    while i < lines.len()
        invariant
            0 <= i <= lines@.len(),
            dv == lines.deep_view(),
            dv == split_at(text@, '\n'),
            dv.len() == lines@.len(),
            chapter_views(out@) + chapters_from_text_lines(dv, i as int) == chapters_from_text_lines(
                dv,
                0,
            ),
        decreases lines@.len() - i,
    {
        let line_ref = lines[i].as_str();
        proof {
            assert(line_ref@ == dv[i as int]);
        }
        let (a, b) = crate::text::trim_bounds(line_ref);
        if a < b {
            let tl = line_ref.substring_char(a, b);
            proof {
                assert(tl@ == trim(dv[i as int]));
            }
            let tlen = tl.unicode_len();
            match find_token_exec(tl, 0, tlen) {
                None => {
                },
                Some(tok) => {
                    let (st, l) = tok;
                    let title = line_title(tl.substring_char(st + l, tlen));
                    if !title.as_str().is_empty() {
                        let time = normalize_time(tl.substring_char(st, st + l));
                        let ghost tv = (time@, title@);
                        let ghost old_views = chapter_views(out@);
                        out.push(Chapter { time, title });
                        proof {
                            assert(tl@.skip(st + l) =~= tl@.subrange(st + l, tlen as int));
                            assert(chapter_views(out@) =~= old_views.push(tv));
                        }
                    }
                },
            }
        }
        proof {
            assert(chapter_views(out@) + chapters_from_text_lines(dv, i + 1)
                =~= chapters_from_text_lines(dv, 0));
        }
        i += 1;
    }
    proof {
        assert(chapters_from_text_lines(dv, lines@.len() as int) =~= Seq::<
            (Seq<char>, Seq<char>),
        >::empty());
        assert(chapter_views(out@) =~= spec_parse_free_text(text@));
    }
    out
}

} // verus!
