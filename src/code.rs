//! The lines of a code block.
use vstd::prelude::*;
use crate::text::{Span, chars_of, chars_of_spans, string_of};

verus! {

/// The length of the first line of `s`, up to its first line feed.
pub open spec fn line_len(s: Seq<char>) -> nat
    decreases s.len(),
{
    if s.len() == 0 || s[0] == '\n' {
        0
    } else {
        1 + line_len(s.subrange(1, s.len() as int))
    }
}

/// The lines of `s` without their line feeds; a final line feed ends the
/// last line and opens no new one.
pub open spec fn code_lines(s: Seq<char>) -> Seq<Seq<char>>
    decreases s.len(),
{
    if s.len() == 0 {
        Seq::empty()
    } else {
        let k = line_len(s);
        let rest = if k < s.len() {
            s.subrange(k + 1int, s.len() as int)
        } else {
            Seq::empty()
        };
        seq![s.subrange(0, k as int)] + code_lines(rest)
    }
}

proof fn lemma_line_len_append(t: Seq<char>, rest: Seq<char>)
    requires
        forall|k: int| 0 <= k < t.len() ==> t[k] != '\n',
    ensures
        line_len(t + rest) == t.len() + line_len(rest),
    decreases t.len(),
{
    if t.len() > 0 {
        let u = t.subrange(1, t.len() as int);
        lemma_line_len_append(u, rest);
        assert((t + rest).subrange(1, (t + rest).len() as int) =~= u + rest);
    } else {
        assert(t + rest =~= rest);
    }
}

/// The lines of a code block, without line feeds.
pub fn split_lines(literal: &str) -> (r: Vec<Vec<char>>)
    ensures
        r@.map_values(|l: Vec<char>| l@) == code_lines(literal@),
{
    let s = chars_of(literal);
    let ghost sv = s@;
    let mut out: Vec<Vec<char>> = Vec::new();
    let mut cur: Vec<char> = Vec::new();
    let mut i: usize = 0;
    proof {
        assert(out@.map_values(|l: Vec<char>| l@) =~= Seq::<Seq<char>>::empty());
        assert(cur@ + sv.subrange(0, sv.len() as int) =~= sv);
    }
    while i < s.len()
        invariant
            sv == s@,
            i <= sv.len(),
            forall|k: int| 0 <= k < cur@.len() ==> cur@[k] != '\n',
            code_lines(sv) == out@.map_values(|l: Vec<char>| l@) + code_lines(cur@ + sv.subrange(i as int, sv.len() as int)),
        decreases sv.len() - i,
    {
        let c = s[i];
        let ghost rest = sv.subrange(i + 1, sv.len() as int);
        proof {
            assert(sv.subrange(i as int, sv.len() as int) =~= seq![c] + rest);
        }
        if c == '\n' {
            proof {
                let t = cur@ + (seq![c] + rest);
                lemma_line_len_append(cur@, seq![c] + rest);
                assert(t =~= cur@ + seq![c] + rest);
                assert(t.subrange(0, cur@.len() as int) =~= cur@);
                assert(t.subrange(cur@.len() + 1int, t.len() as int) =~= rest);
                assert(code_lines(Seq::<char>::empty() + rest) == code_lines(rest)) by {
                    assert(Seq::<char>::empty() + rest =~= rest);
                }
            }
            let ghost before = out@;
            out.push(cur);
            proof {
                assert(out@.map_values(|l: Vec<char>| l@) =~= before.map_values(|l: Vec<char>| l@).push(cur@));
            }
            cur = Vec::new();
        } else {
            let ghost before = cur@;
            cur.push(c);
            proof {
                assert(cur@ + rest =~= before + (seq![c] + rest));
            }
        }
        i += 1;
    }
    proof {
        assert(sv.subrange(i as int, sv.len() as int) =~= Seq::<char>::empty());
        assert(cur@ + Seq::<char>::empty() =~= cur@);
    }
    if cur.len() > 0 {
        proof {
            lemma_line_len_append(cur@, Seq::empty());
            assert(cur@ + Seq::<char>::empty() =~= cur@);
            assert(cur@.subrange(0, cur@.len() as int) =~= cur@);
            assert(code_lines(Seq::<char>::empty()) =~= Seq::<Seq<char>>::empty());
        }
        let ghost before = out@;
        out.push(cur);
        proof {
            assert(out@.map_values(|l: Vec<char>| l@) =~= before.map_values(|l: Vec<char>| l@).push(cur@));
            assert(code_lines(sv) =~= before.map_values(|l: Vec<char>| l@).push(cur@));
        }
    } else {
        proof {
            assert(code_lines(sv) =~= out@.map_values(|l: Vec<char>| l@));
        }
    }
    out
}

/// The spans cut to their first `len` characters together; styles stay.
pub fn truncate_spans(spans: &Vec<Span>, len: usize) -> (r: Vec<Span>)
    requires
        len <= chars_of_spans(spans@).len(),
    ensures
        chars_of_spans(r@) == chars_of_spans(spans@).subrange(0, len as int),
        r@.len() == spans@.len(),
        forall|k: int| 0 <= k < r@.len() ==> (#[trigger] r@[k]).style == spans@[k].style,
{
    let mut out: Vec<Span> = Vec::new();
    let mut kept: usize = 0;
    let mut j: usize = 0;
    while j < spans.len()
        invariant
            j <= spans@.len(),
            kept <= len,
            len <= chars_of_spans(spans@).len(),
            kept as int == if chars_of_spans(spans@.subrange(0, j as int)).len() < len {
                chars_of_spans(spans@.subrange(0, j as int)).len() as int
            } else {
                len as int
            },
            chars_of_spans(out@) == chars_of_spans(spans@.subrange(0, j as int)).subrange(0, kept as int),
            out@.len() == j,
            forall|k: int| 0 <= k < j ==> (#[trigger] out@[k]).style == spans@[k].style,
        decreases spans@.len() - j,
    {
        let ghost pre = chars_of_spans(spans@.subrange(0, j as int));
        let cs = chars_of(spans[j].content.as_str());
        proof {
            assert(spans@.subrange(0, j + 1).drop_last() =~= spans@.subrange(0, j as int));
            assert(chars_of_spans(spans@.subrange(0, j + 1)) == pre + cs@);
        }
        let room = len - kept;
        let take: usize = if cs.len() < room { cs.len() } else { room };
        let mut part: Vec<char> = Vec::new();
        let mut k: usize = 0;
        while k < take
            invariant
                k <= take,
                take <= cs@.len(),
                part@ == cs@.subrange(0, k as int),
            decreases take - k,
        {
            part.push(cs[k]);
            proof {
                assert(cs@.subrange(0, k as int).push(cs@[k as int]) =~= cs@.subrange(0, k + 1));
            }
            k += 1;
        }
        let ghost before = out@;
        let span = Span { content: string_of(&part), style: spans[j].style };
        out.push(span);
        proof {
            assert(out@.drop_last() =~= before);
            assert(chars_of_spans(out@) == chars_of_spans(before) + part@);
            let newpre = pre + cs@;
            assert(chars_of_spans(out@) =~= newpre.subrange(0, kept + take));
            if pre.len() >= len {
                assert(take == 0);
            }
        }
        kept = kept + take;
        j += 1;
    }
    proof {
        assert(spans@.subrange(0, j as int) =~= spans@);
    }
    out
}

} // verus!
