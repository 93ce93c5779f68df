//! Presentation settings and the commands run on lifecycle events.
use vstd::prelude::*;
use crate::page::PageBreakCondition;
use crate::style::Style;
use crate::text::{chars_of, string_of};

verus! {

/// The prefix and style of headings of one level.
#[derive(Clone, Debug)]
pub struct HeadingStyle {
    pub prefix: String,
    pub style: Style,
}

/// A command to run: a binary and its arguments.
#[derive(Clone, Debug)]
pub struct Command {
    pub binary: String,
    pub arguments: Vec<String>,
}

/// The commands run during a presentation.
#[derive(Clone, Debug)]
pub struct Commands {
    /// Run once the presentation has been loaded.
    pub initialize: Option<Command>,
}

/// The settings of a presentation.
#[derive(Clone, Debug)]
pub struct Configuration {
    pub title: String,
    pub page_break: PageBreakCondition,
    pub commands: Commands,
    /// Heading prefixes and styles, for levels 1 to 6 in order.
    pub heading_styles: Vec<HeadingStyle>,
    pub default_style: Style,
}

impl Configuration {
    /// A style for each heading level.
    pub open spec fn wf(&self) -> bool {
        self.heading_styles@.len() == 6
    }
}

/// The index of the first `}` in `t` at or after `k`, or the length of `t`.
pub open spec fn find_close(t: Seq<char>, k: int) -> int
    decreases t.len() - k,
{
    if k >= t.len() || k < 0 {
        t.len() as int
    } else if t[k] == '}' {
        k
    } else {
        find_close(t, k + 1)
    }
}

/// The replacement of `key`: the value of the first pair with that key.
pub open spec fn replacement_for(reps: Seq<(Seq<char>, Seq<char>)>, key: Seq<char>) -> Option<Seq<char>>
    decreases reps.len(),
{
    if reps.len() == 0 {
        None
    } else if reps[0].0 == key {
        Some(reps[0].1)
    } else {
        replacement_for(reps.subrange(1, reps.len() as int), key)
    }
}

/// `s` with each token `${key}` replaced by the replacement of `key`;
/// tokens without a replacement stay as they are.
pub open spec fn interpolated(s: Seq<char>, reps: Seq<(Seq<char>, Seq<char>)>) -> Seq<char>
    decreases s.len(),
{
    if s.len() == 0 {
        Seq::empty()
    } else if s.len() >= 2 && s[0] == '$' && s[1] == '{' && 2 <= find_close(s, 2) < s.len() {
        let j = find_close(s, 2);
        let token = match replacement_for(reps, s.subrange(2, j)) {
            Some(v) => v,
            None => s.subrange(0, j + 1),
        };
        token + interpolated(s.subrange(j + 1, s.len() as int), reps)
    } else {
        seq![s[0]] + interpolated(s.subrange(1, s.len() as int), reps)
    }
}

/// The values of replacement pairs.
pub open spec fn pairs_view(reps: Seq<(String, String)>) -> Seq<(Seq<char>, Seq<char>)> {
    reps.map_values(|p: (String, String)| (p.0@, p.1@))
}

proof fn lemma_find_close_shift(s: Seq<char>, i: int, k: int)
    requires
        0 <= i <= s.len(),
        0 <= k,
    ensures
        find_close(s.subrange(i, s.len() as int), k) == (if i + k >= s.len() {
            s.len() - i
        } else {
            find_close(s, i + k) - i
        }),
    decreases s.len() - i - k,
{
    let t = s.subrange(i, s.len() as int);
    if i + k < s.len() {
        assert(t[k] == s[i + k]);
        lemma_find_close_shift(s, i, k + 1);
        if s[i + k] != '}' {
            assert(find_close(t, k) == find_close(t, k + 1));
            assert(find_close(s, i + k) == find_close(s, i + k + 1));
            if i + k + 1 >= s.len() {
                assert(find_close(s, i + k + 1) == s.len());
            }
        }
    } else {
        assert(t.len() == s.len() - i);
    }
}

/// Whether `a` and `b` hold the same characters.
fn same_chars(a: &Vec<char>, b: &Vec<char>) -> (r: bool)
    ensures
        r == (a@ == b@),
{
    if a.len() != b.len() {
        return false;
    }
    let mut k: usize = 0;
    while k < a.len()
        invariant
            a@.len() == b@.len(),
            k <= a@.len(),
            forall|t: int| 0 <= t < k ==> a@[t] == b@[t],
        decreases a@.len() - k,
    {
        if a[k] != b[k] {
            return false;
        }
        k += 1;
    }
    proof {
        assert(a@ =~= b@);
    }
    true
}

/// The replacement of `key` among `replacements`, if any.
fn find_replacement(replacements: &Vec<(String, String)>, key: &Vec<char>) -> (r: Option<Vec<char>>)
    ensures
        match r {
            Some(v) => replacement_for(pairs_view(replacements@), key@) == Some(v@),
            None => replacement_for(pairs_view(replacements@), key@) is None,
        },
{
    let ghost all = pairs_view(replacements@);
    let mut k: usize = 0;
    proof {
        assert(all.subrange(0, all.len() as int) =~= all);
    }
    while k < replacements.len()
        invariant
            k <= replacements@.len(),
            all == pairs_view(replacements@),
            replacement_for(all, key@) == replacement_for(all.subrange(k as int, all.len() as int), key@),
        decreases replacements@.len() - k,
    {
        let name = chars_of(replacements[k].0.as_str());
        let ghost rest = all.subrange(k as int, all.len() as int);
        proof {
            assert(rest.subrange(1, rest.len() as int) =~= all.subrange(k + 1, all.len() as int));
        }
        if same_chars(&name, key) {
            return Some(chars_of(replacements[k].1.as_str()));
        }
        k += 1;
    }
    None
}

/// `string` with each token `${key}` replaced by the value paired with
/// `key` in `replacements`; tokens without a value stay as they are.
pub fn interpolate(string: &str, replacements: &Vec<(String, String)>) -> (r: String)
    ensures
        r@ == interpolated(string@, pairs_view(replacements@)),
{
    let s = chars_of(string);
    let ghost reps = pairs_view(replacements@);
    let n = s.len();
    let mut out: Vec<char> = Vec::new();
    let mut i: usize = 0;
    proof {
        assert(s@.subrange(0, n as int) =~= s@);
        assert(out@ + s@ =~= s@);
        assert(Seq::<char>::empty() + interpolated(s@, reps) =~= interpolated(s@, reps));
    }
    while i < n
        invariant
            n == s@.len(),
            s@ == string@,
            reps == pairs_view(replacements@),
            i <= n,
            interpolated(s@, reps) == out@ + interpolated(s@.subrange(i as int, n as int), reps),
        decreases n - i,
    {
        let ghost t = s@.subrange(i as int, n as int);
        let opens = i + 1 < n && s[i] == '$' && s[i + 1] == '{';
        let mut j: usize = if opens { i + 2 } else { n };
        if opens {
            while j < n && s[j] != '}'
                invariant
                    i + 2 <= j <= n,
                    n == s@.len(),
                    forall|t2: int| i + 2 <= t2 < j ==> s@[t2] != '}',
                decreases n - j,
            {
                j += 1;
            }
            proof {
                lemma_find_close_shift(s@, i as int, 2);
                lemma_close_is(s@, i + 2, j as int);
            }
        }
        if opens && j < n {
            let mut key: Vec<char> = Vec::new();
            let mut k: usize = i + 2;
            while k < j
                invariant
                    i + 2 <= k <= j,
                    j < n,
                    n == s@.len(),
                    key@ == s@.subrange(i + 2, k as int),
                decreases j - k,
            {
                key.push(s[k]);
                proof {
                    assert(s@.subrange(i + 2, k as int).push(s@[k as int]) =~= s@.subrange(i + 2, k + 1));
                }
                k += 1;
            }
            let ghost before = out@;
            match find_replacement(replacements, &key) {
                Some(v) => {
                    let mut q: usize = 0;
                    while q < v.len()
                        invariant
                            q <= v@.len(),
                            out@ == before + v@.subrange(0, q as int),
                        decreases v@.len() - q,
                    {
                        out.push(v[q]);
                        proof {
                            assert(before + v@.subrange(0, q + 1) =~= (before + v@.subrange(0, q as int)).push(v@[q as int]));
                        }
                        q += 1;
                    }
                    proof {
                        assert(v@.subrange(0, q as int) =~= v@);
                    }
                },
                None => {
                    let mut q: usize = i;
                    while q <= j
                        invariant
                            i <= q <= j + 1,
                            j < n,
                            n == s@.len(),
                            out@ == before + s@.subrange(i as int, q as int),
                        decreases j + 1 - q,
                    {
                        out.push(s[q]);
                        proof {
                            assert(before + s@.subrange(i as int, q + 1) =~= (before + s@.subrange(i as int, q as int)).push(s@[q as int]));
                        }
                        q += 1;
                    }
                },
            }
            proof {
                assert(t.subrange(2, j - i) =~= s@.subrange(i + 2, j as int));
                assert(t.subrange(0, j - i + 1) =~= s@.subrange(i as int, j + 1));
                assert(t.subrange(j - i + 1, t.len() as int) =~= s@.subrange(j + 1, n as int));
                assert(out@ + interpolated(s@.subrange(j + 1, n as int), reps) =~= before + interpolated(t, reps));
            }
            i = j + 1;
        } else {
            proof {
                assert(t.subrange(1, t.len() as int) =~= s@.subrange(i + 1, n as int));
                if t.len() >= 2 && t[0] == '$' && t[1] == '{' {
                    assert(opens);
                    assert(find_close(t, 2) == t.len());
                }
            }
            let ghost before = out@;
            out.push(s[i]);
            proof {
                assert(out@ + interpolated(s@.subrange(i + 1, n as int), reps) =~= before + interpolated(t, reps));
            }
            i += 1;
        }
    }
    proof {
        assert(s@.subrange(n as int, n as int) =~= Seq::<char>::empty());
        assert(out@ + Seq::<char>::empty() =~= out@);
    }
    string_of(&out)
}

proof fn lemma_close_is(s: Seq<char>, from: int, j: int)
    requires
        0 <= from <= j <= s.len(),
        forall|t: int| from <= t < j ==> s[t] != '}',
        j < s.len() ==> s[j] == '}',
    ensures
        find_close(s, from) == j,
    decreases j - from,
{
    if from < j {
        lemma_close_is(s, from + 1, j);
    }
}

/// The key under which a command finds the presentation's path.
pub const PRESENTATION_PATH_KEY: &'static str = "presentation.path";

impl Command {
    /// The binary, and the arguments with their tokens replaced.
    pub fn invocation(&self, replacements: &Vec<(String, String)>) -> (r: (String, Vec<String>))
        ensures
            r.0@ == self.binary@,
            r.1@.len() == self.arguments@.len(),
            forall|k: int|
                0 <= k < r.1@.len() ==> (#[trigger] r.1@[k])@ == interpolated(self.arguments@[k]@, pairs_view(replacements@)),
    {
        let mut args: Vec<String> = Vec::new();
        let mut k: usize = 0;
        while k < self.arguments.len()
            invariant
                k <= self.arguments@.len(),
                args@.len() == k,
                forall|t: int|
                    0 <= t < k ==> (#[trigger] args@[t])@ == interpolated(self.arguments@[t]@, pairs_view(replacements@)),
            decreases self.arguments@.len() - k,
        {
            args.push(interpolate(self.arguments[k].as_str(), replacements));
            k += 1;
        }
        (self.binary.clone(), args)
    }
}

impl Commands {
    /// The command line to run once the presentation at
    /// `presentation_path` has been loaded, if one is configured: each
    /// `${presentation.path}` in its arguments reads as the path.
    pub fn initialize(&self, presentation_path: &str) -> (r: Option<(String, Vec<String>)>)
        ensures
            r is Some <==> self.initialize is Some,
            r is Some ==> ({
                let c = self.initialize->0;
                let line = r->0;
                let reps = seq![(PRESENTATION_PATH_KEY@, presentation_path@)];
                &&& line.0@ == c.binary@
                &&& line.1@.len() == c.arguments@.len()
                &&& forall|k: int|
                    0 <= k < c.arguments@.len() ==> (#[trigger] line.1@[k])@ == interpolated(c.arguments@[k]@, reps)
            }),
    {
        match &self.initialize {
            Some(command) => {
                let reps = vec![(PRESENTATION_PATH_KEY.to_owned(), presentation_path.to_owned())];
                proof {
                    assert(pairs_view(reps@) =~= seq![(PRESENTATION_PATH_KEY@, presentation_path@)]);
                }
                Some(command.invocation(&reps))
            },
            None => None,
        }
    }
}

} // verus!
