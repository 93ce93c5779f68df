//! Greedy word wrapping, measured without building the wrapped text.
//!
//! A cursor walks the characters of a line. It counts rows, tracks the
//! column, and remembers whether it is inside a word. A word that reaches
//! the right edge is moved to the next row; a word longer than a row is
//! broken where the edge falls.
use vstd::prelude::*;
use crate::text::{Cell, Span, cells_symbols, chars_of, chars_of_spans, rows_symbols, white_space, is_whitespace};

verus! {

/// Where the cursor stands with respect to words.
pub enum WordState {
    /// Between words.
    Outside,
    /// Inside a word; the number of its characters seen so far.
    Started(nat),
    /// Inside a word that was moved to a new row; how many of its
    /// characters were seen before the move.
    WrappedAt(nat),
}

/// The measuring cursor.
pub struct Cursor {
    pub height: nat,
    pub pos: nat,
    pub word: WordState,
}

/// The cursor before any character, at column `indent`.
pub open spec fn start(indent: nat) -> Cursor {
    Cursor { height: 1, pos: indent, word: WordState::Outside }
}

/// One character `c` moves the cursor.
///
/// The column advances first. Whitespace ends a word. A word still on the
/// row where it began and reaching `width` is moved to the next row. When a
/// moved word ends, its earlier characters are counted on its new row.
/// Whenever the column reaches `width`, a new row begins at column 0.
pub open spec fn step(st: Cursor, c: char, width: nat) -> Cursor {
    let pos = st.pos + 1;
    let (word, pos) = match st.word {
        WordState::Outside => if white_space(c) {
            (WordState::Outside, pos)
        } else {
            (WordState::Started(1), pos)
        },
        WordState::Started(len) => if white_space(c) {
            (WordState::Outside, pos)
        } else if pos >= width {
            (WordState::WrappedAt(len), pos)
        } else {
            (WordState::Started(len + 1), pos)
        },
        WordState::WrappedAt(k) => if white_space(c) {
            (WordState::Outside, pos + k)
        } else {
            (WordState::WrappedAt(k), pos)
        },
    };
    if pos >= width {
        Cursor { height: st.height + 1, pos: 0, word }
    } else {
        Cursor { height: st.height, pos, word }
    }
}

/// The cursor after all of `chars`.
pub open spec fn run(chars: Seq<char>, width: nat, indent: nat) -> Cursor
    decreases chars.len(),
{
    if chars.len() == 0 {
        start(indent)
    } else {
        step(run(chars.drop_last(), width, indent), chars.last(), width)
    }
}

/// The number of rows that `chars` takes at `width`, starting at column
/// `indent`.
pub open spec fn line_height(chars: Seq<char>, width: nat, indent: nat) -> nat {
    run(chars, width, indent).height
}

/// `n` clamped to the range of `u16`.
pub open spec fn clamp16(n: int) -> int {
    if n > u16::MAX as int {
        u16::MAX as int
    } else {
        n
    }
}

/// The bounds that every reachable cursor keeps.
pub open spec fn bounded(st: Cursor, width: nat, indent: nat) -> bool {
    let m = if indent > width {
        indent
    } else {
        width
    };
    &&& st.height >= 1
    &&& st.pos <= m
    &&& match st.word {
        WordState::Outside => true,
        WordState::Started(len) => 1 <= len <= st.pos + 1,
        WordState::WrappedAt(k) => k <= m + 1,
    }
}

/// A line takes at least one row.
pub proof fn lemma_height_positive(chars: Seq<char>, width: nat, indent: nat)
    ensures
        run(chars, width, indent).height >= 1,
{
    lemma_run_bounded(chars, width, indent);
}

proof fn lemma_run_push(chars: Seq<char>, c: char, width: nat, indent: nat)
    ensures
        run(chars.push(c), width, indent) == step(run(chars, width, indent), c, width),
{
    assert(chars.push(c).drop_last() =~= chars);
}

proof fn lemma_run_bounded(chars: Seq<char>, width: nat, indent: nat)
    ensures
        bounded(run(chars, width, indent), width, indent),
    decreases chars.len(),
{
    if chars.len() > 0 {
        lemma_run_bounded(chars.drop_last(), width, indent);
    }
}

/// The row count never falls as characters are added.
pub proof fn lemma_height_grows(chars: Seq<char>, n: int, width: nat, indent: nat)
    requires
        0 <= n <= chars.len(),
    ensures
        line_height(chars.subrange(0, n), width, indent) <= line_height(chars, width, indent),
    decreases chars.len(),
{
    if n < chars.len() {
        lemma_height_grows(chars.drop_last(), n, width, indent);
        assert(chars.drop_last().subrange(0, n) =~= chars.subrange(0, n));
    } else {
        assert(chars.subrange(0, n) =~= chars);
    }
}

/// The executable mirror of `WordState`.
enum Word {
    Outside,
    Started(u32),
    WrappedAt(u32),
}

/// The executable mirror of `Cursor`.
struct Meter {
    height: u32,
    pos: u32,
    word: Word,
}

impl Meter {
    spec fn view(&self) -> Cursor {
        Cursor {
            height: self.height as nat,
            pos: self.pos as nat,
            word: match self.word {
                Word::Outside => WordState::Outside,
                Word::Started(l) => WordState::Started(l as nat),
                Word::WrappedAt(k) => WordState::WrappedAt(k as nat),
            },
        }
    }

    fn advance(&mut self, c: char, width: u16, indent: u16)
        requires
            bounded(old(self).view(), width as nat, indent as nat),
            old(self).height < u16::MAX,
        ensures
            final(self).view() == step(old(self).view(), c, width as nat),
    {
        let ws = is_whitespace(c);
        let w = width as u32;
        let mut pos = self.pos + 1;
        let word = match self.word {
            Word::Outside => if ws {
                Word::Outside
            } else {
                Word::Started(1)
            },
            Word::Started(len) => if ws {
                Word::Outside
            } else if pos >= w {
                Word::WrappedAt(len)
            } else {
                Word::Started(len + 1)
            },
            Word::WrappedAt(k) => if ws {
                pos = pos + k;
                Word::Outside
            } else {
                Word::WrappedAt(k)
            },
        };
        if pos >= w {
            self.height = self.height + 1;
            self.pos = 0;
        } else {
            self.pos = pos;
        }
        self.word = word;
    }
}

/// The number of rows that a line of runs takes at `width`, with the first
/// row starting at column `indent`; clamped to the range of `u16`.
pub fn height_line(width: u16, indent: u16, value: &[Span]) -> (r: u16)
    ensures
        r as int == clamp16(line_height(chars_of_spans(value@), width as nat, indent as nat) as int),
{
    let ghost w = width as nat;
    let ghost ind = indent as nat;
    let ghost all = chars_of_spans(value@);
    let mut m = Meter { height: 1, pos: indent as u32, word: Word::Outside };
    let mut j: usize = 0;
    while j < value.len()
        invariant
            j <= value@.len(),
            m.view() == run(chars_of_spans(value@.subrange(0, j as int)), w, ind),
            m.height < u16::MAX,
            all == chars_of_spans(value@),
            w == width as nat,
            ind == indent as nat,
        decreases value@.len() - j,
    {
        let cs = chars_of(value[j].content.as_str());
        let ghost before = chars_of_spans(value@.subrange(0, j as int));
        proof {
            assert(value@.subrange(0, j + 1).drop_last() =~= value@.subrange(0, j as int));
        }
        let mut k: usize = 0;
        while k < cs.len()
            invariant
                k <= cs@.len(),
                cs@ == value@[j as int].content@,
                m.view() == run(before + cs@.subrange(0, k as int), w, ind),
                m.height < u16::MAX,
                j < value@.len(),
                before == chars_of_spans(value@.subrange(0, j as int)),
                all == chars_of_spans(value@),
                w == width as nat,
                ind == indent as nat,
            decreases cs@.len() - k,
        {
            let ghost seen = before + cs@.subrange(0, k as int);
            proof {
                lemma_run_bounded(seen, w, ind);
                lemma_run_push(seen, cs@[k as int], w, ind);
                assert(seen.push(cs@[k as int]) =~= before + cs@.subrange(0, k + 1));
            }
            m.advance(cs[k], width, indent);
            k += 1;
            if m.height >= u16::MAX as u32 {
                proof {
                    let done = before + cs@.subrange(0, k as int);
                    lemma_prefix_of_spans(value@, j as int, cs@.subrange(0, k as int));
                    lemma_height_grows(all, done.len() as int, w, ind);
                    assert(all.subrange(0, done.len() as int) =~= done);
                }
                return u16::MAX;
            }
        }
        proof {
            assert(cs@.subrange(0, k as int) =~= cs@);
            assert(before + cs@ =~= chars_of_spans(value@.subrange(0, j + 1)));
        }
        j += 1;
    }
    proof {
        assert(value@.subrange(0, j as int) =~= value@);
    }
    m.height as u16
}

/// The characters of the first `j` runs, followed by part of run `j`, are a
/// prefix of the characters of all runs.
proof fn lemma_prefix_of_spans(spans: Seq<Span>, j: int, part: Seq<char>)
    requires
        0 <= j < spans.len(),
        part.len() <= spans[j].content@.len(),
        part =~= spans[j].content@.subrange(0, part.len() as int),
    ensures
        (chars_of_spans(spans.subrange(0, j)) + part).len() <= chars_of_spans(spans).len(),
        chars_of_spans(spans).subrange(0, (chars_of_spans(spans.subrange(0, j)) + part).len() as int)
            =~= chars_of_spans(spans.subrange(0, j)) + part,
    decreases spans.len(),
{
    if j + 1 == spans.len() {
        assert(spans.drop_last() =~= spans.subrange(0, j));
    } else {
        lemma_prefix_of_spans(spans.drop_last(), j, part);
        assert(spans.drop_last().subrange(0, j) =~= spans.subrange(0, j));
    }
}

proof fn lemma_symbols_push(cells: Seq<Cell>, c: Cell)
    ensures
        cells_symbols(cells.push(c)) == cells_symbols(cells).push(c.symbol),
{
    assert(cells_symbols(cells.push(c)) =~= cells_symbols(cells).push(c.symbol));
}

proof fn lemma_rows_push(rows: Seq<Vec<Cell>>, row: Vec<Cell>)
    ensures
        rows_symbols(rows.push(row)) == rows_symbols(rows) + cells_symbols(row@),
{
    assert(rows.push(row).drop_last() =~= rows);
}

/// Splits off the last `t` cells of `cur`.
fn split_tail(cur: Vec<Cell>, t: usize) -> (r: (Vec<Cell>, Vec<Cell>))
    requires
        t <= cur@.len(),
    ensures
        r.0@ + r.1@ == cur@,
        r.1@.len() == t,
        cells_symbols(r.0@) + cells_symbols(r.1@) == cells_symbols(cur@),
{
    let cut = cur.len() - t;
    let mut head: Vec<Cell> = Vec::new();
    let mut tail: Vec<Cell> = Vec::new();
    let mut i: usize = 0;
    while i < cur.len()
        invariant
            i <= cur@.len(),
            cut == cur@.len() - t,
            i <= cut ==> head@ == cur@.subrange(0, i as int) && tail@.len() == 0,
            i > cut ==> head@ == cur@.subrange(0, cut as int) && tail@ == cur@.subrange(cut as int, i as int),
        decreases cur@.len() - i,
    {
        if i < cut {
            head.push(cur[i]);
            proof {
                assert(cur@.subrange(0, i as int).push(cur@[i as int]) =~= cur@.subrange(0, i + 1));
            }
        } else {
            tail.push(cur[i]);
            proof {
                if i == cut {
                    assert(tail@ =~= cur@.subrange(cut as int, i + 1));
                } else {
                    assert(cur@.subrange(cut as int, i as int).push(cur@[i as int]) =~= cur@.subrange(cut as int, i + 1));
                }
            }
        }
        i += 1;
    }
    proof {
        if cut == cur@.len() {
            assert(tail@ =~= cur@.subrange(cut as int, cut as int));
        }
        assert(head@ + tail@ =~= cur@);
        assert(cells_symbols(head@) + cells_symbols(tail@) =~= cells_symbols(cur@));
    }
    (head, tail)
}

/// The rows that a line of runs is drawn in at `width`, the first starting
/// at column `indent`: as many as `height_line` counts (no more than the
/// range of `u16` holds), holding the line's characters in order, each in
/// the style of its run. A word moved to the next row by the measure is
/// moved there in the rows too.
pub fn wrap_line(width: u16, indent: u16, value: &[Span]) -> (r: Vec<Vec<Cell>>)
    ensures
        r@.len() == clamp16(line_height(chars_of_spans(value@), width as nat, indent as nat) as int),
        line_height(chars_of_spans(value@), width as nat, indent as nat) < u16::MAX ==> rows_symbols(r@)
            == chars_of_spans(value@),
{
    let ghost w = width as nat;
    let ghost ind = indent as nat;
    let ghost all = chars_of_spans(value@);
    let mut m = Meter { height: 1, pos: indent as u32, word: Word::Outside };
    let mut done: Vec<Vec<Cell>> = Vec::new();
    let mut cur: Vec<Cell> = Vec::new();
    let mut j: usize = 0;
    proof {
        assert(value@.subrange(0, 0) =~= Seq::<Span>::empty());
        assert(rows_symbols(done@) + cells_symbols(cur@) =~= Seq::<char>::empty());
    }
    while j < value.len()
        invariant
            j <= value@.len(),
            m.view() == run(chars_of_spans(value@.subrange(0, j as int)), w, ind),
            m.height < u16::MAX,
            done@.len() + 1 == m.height,
            rows_symbols(done@) + cells_symbols(cur@) == chars_of_spans(value@.subrange(0, j as int)),
            all == chars_of_spans(value@),
            w == width as nat,
            ind == indent as nat,
        decreases value@.len() - j,
    {
        let cs = chars_of(value[j].content.as_str());
        let style = value[j].style;
        let ghost before = chars_of_spans(value@.subrange(0, j as int));
        proof {
            assert(value@.subrange(0, j + 1).drop_last() =~= value@.subrange(0, j as int));
        }
        let mut k: usize = 0;
        while k < cs.len()
            invariant
                k <= cs@.len(),
                cs@ == value@[j as int].content@,
                m.view() == run(before + cs@.subrange(0, k as int), w, ind),
                m.height < u16::MAX,
                done@.len() + 1 == m.height,
                rows_symbols(done@) + cells_symbols(cur@) == before + cs@.subrange(0, k as int),
                j < value@.len(),
                before == chars_of_spans(value@.subrange(0, j as int)),
                all == chars_of_spans(value@),
                w == width as nat,
                ind == indent as nat,
            decreases cs@.len() - k,
        {
            let ghost seen = before + cs@.subrange(0, k as int);
            proof {
                lemma_run_bounded(seen, w, ind);
                lemma_run_push(seen, cs@[k as int], w, ind);
                assert(seen.push(cs@[k as int]) =~= before + cs@.subrange(0, k + 1));
            }
            let moving: u32 = match m.word {
                Word::Started(len) => len,
                _ => 0,
            };
            let h0 = m.height;
            m.advance(cs[k], width, indent);
            let ghost cur0 = cur@;
            let cell = Cell { symbol: cs[k], style };
            cur.push(cell);
            proof {
                lemma_symbols_push(cur0, cell);
            }
            if m.height > h0 {
                let moved = match m.word {
                    Word::WrappedAt(_) => moving != 0,
                    _ => false,
                };
                let t: usize = if moved {
                    if (moving as usize) < cur.len() {
                        moving as usize + 1
                    } else {
                        cur.len()
                    }
                } else {
                    0
                };
                let (head, tail) = split_tail(cur, t);
                let ghost d0 = done@;
                done.push(head);
                cur = tail;
                proof {
                    lemma_rows_push(d0, head);
                }
            }
            k += 1;
            if m.height >= u16::MAX as u32 {
                proof {
                    let seen2 = before + cs@.subrange(0, k as int);
                    lemma_prefix_of_spans(value@, j as int, cs@.subrange(0, k as int));
                    lemma_height_grows(all, seen2.len() as int, w, ind);
                    assert(all.subrange(0, seen2.len() as int) =~= seen2);
                }
                done.push(cur);
                return done;
            }
        }
        proof {
            assert(cs@.subrange(0, k as int) =~= cs@);
            assert(before + cs@ =~= chars_of_spans(value@.subrange(0, j + 1)));
        }
        j += 1;
    }
    proof {
        assert(value@.subrange(0, j as int) =~= value@);
    }
    let ghost d0 = done@;
    done.push(cur);
    proof {
        lemma_rows_push(d0, cur);
    }
    done
}

} // verus!
