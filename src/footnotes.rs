//! The footnote table of a document: a stable index for each name, content
//! once defined, and the references made on the page being transformed.
use vstd::prelude::*;
use crate::section::Sections;
use crate::text::string_of;

verus! {

/// A named footnote and its content, if defined yet.
#[derive(Debug)]
pub struct Footnote {
    pub name: String,
    pub content: Option<Sections>,
}

/// Footnotes by index, and the indices referenced since the last
/// extraction.
#[derive(Debug)]
pub struct Footnotes {
    references: Vec<usize>,
    data: Vec<Footnote>,
}

/// The superscript numeral for digit `d`.
pub open spec fn superscript_digit_spec(d: nat) -> char {
    if d == 0 {
        '⁰'
    } else if d == 1 {
        '¹'
    } else if d == 2 {
        '²'
    } else if d == 3 {
        '³'
    } else if d == 4 {
        '⁴'
    } else if d == 5 {
        '⁵'
    } else if d == 6 {
        '⁶'
    } else if d == 7 {
        '⁷'
    } else if d == 8 {
        '⁸'
    } else {
        '⁹'
    }
}

/// The decimal numeral of `n` in superscript digits, most significant
/// first.
pub open spec fn superscript(n: nat) -> Seq<char>
    decreases n,
{
    if n < 10 {
        seq![superscript_digit_spec(n)]
    } else {
        superscript(n / 10).push(superscript_digit_spec(n % 10))
    }
}

fn superscript_digit(d: usize) -> (r: char)
    requires
        d < 10,
    ensures
        r == superscript_digit_spec(d as nat),
{
    match d {
        0 => '⁰',
        1 => '¹',
        2 => '²',
        3 => '³',
        4 => '⁴',
        5 => '⁵',
        6 => '⁶',
        7 => '⁷',
        8 => '⁸',
        _ => '⁹',
    }
}

fn push_superscript(n: usize, out: &mut Vec<char>)
    ensures
        final(out)@ == old(out)@ + superscript(n as nat),
    decreases n,
{
    if n < 10 {
        out.push(superscript_digit(n));
        assert(old(out)@.push(superscript_digit_spec(n as nat)) =~= old(out)@ + superscript(n as nat));
    } else {
        push_superscript(n / 10, out);
        out.push(superscript_digit(n % 10));
        assert(old(out)@ + superscript((n / 10) as nat) + seq![superscript_digit_spec((n % 10) as nat)]
            =~= old(out)@ + superscript(n as nat));
    }
}

/// `after` is `before` once a reference to `name` is recorded under index
/// `r`: a known name keeps its index, a new one is appended without content.
pub open spec fn referenced_as(before: Footnotes, after: Footnotes, name: Seq<char>, r: usize) -> bool {
    &&& (r as int) < after.names().len()
    &&& after.names()[r as int] == name
    &&& before.names().contains(name) ==> after.names() == before.names() && after.contents()
        == before.contents()
    &&& !before.names().contains(name) ==> r == before.names().len() && after.names()
        == before.names().push(name) && after.contents() == before.contents().push(None)
    &&& after.referenced() == before.referenced().insert(r)
}

/// `indices` are the references of `before` in ascending order, and `after`
/// is `before` with no references.
pub open spec fn extracted(before: Footnotes, after: Footnotes, indices: Seq<usize>) -> bool {
    &&& after.names() == before.names()
    &&& after.contents() == before.contents()
    &&& after.referenced().is_empty()
    &&& indices.to_set() == before.referenced()
    &&& forall|a: int, b: int| 0 <= a < b < indices.len() ==> indices[a] < indices[b]
}

impl Footnotes {
    /// The names, by index.
    pub closed spec fn names(&self) -> Seq<Seq<char>> {
        self.data@.map_values(|f: Footnote| f.name@)
    }

    /// The contents, by index.
    pub closed spec fn contents(&self) -> Seq<Option<Sections>> {
        self.data@.map_values(|f: Footnote| f.content)
    }

    /// The indices referenced since the last extraction.
    pub closed spec fn referenced(&self) -> Set<usize> {
        self.references@.to_set()
    }

    /// Each name has one index; each reference is an index of the table and
    /// is recorded once.
    pub closed spec fn wf(&self) -> bool {
        &&& forall|i: int, j: int|
            0 <= i < j < self.data@.len() ==> (#[trigger] self.data@[i]).name@ != (#[trigger] self.data@[j]).name@
        &&& forall|i: int| 0 <= i < self.references@.len() ==> (#[trigger] self.references@[i]) < self.data@.len()
        &&& self.references@.no_duplicates()
    }

    /// The number of footnotes.
    pub fn len(&self) -> (r: usize)
        ensures
            r == self.names().len(),
    {
        self.data.len()
    }

    /// An empty table.
    pub fn new() -> (r: Footnotes)
        ensures
            r.wf(),
            r.names().len() == 0,
            r.contents().len() == 0,
            r.referenced().is_empty(),
    {
        let r = Footnotes { references: Vec::new(), data: Vec::new() };
        proof {
            assert(r.referenced() =~= Set::empty());
        }
        r
    }

    /// The index of `key`, if it has one.
    fn position(&self, key: &String) -> (r: Option<usize>)
        requires
            self.wf(),
        ensures
            match r {
                Some(i) => i < self.names().len() && self.names()[i as int] == key@,
                None => !self.names().contains(key@),
            },
    {
        let mut i: usize = 0;
        while i < self.data.len()
            invariant
                i <= self.data@.len(),
                forall|t: int| 0 <= t < i ==> (#[trigger] self.data@[t]).name@ != key@,
            decreases self.data@.len() - i,
        {
            if self.data[i].name == *key {
                return Some(i);
            }
            i += 1;
        }
        proof {
            if self.names().contains(key@) {
                let t = choose|t: int| 0 <= t < self.names().len() && self.names()[t] == key@;
                assert(self.data@[t].name@ == key@);
            }
        }
        None
    }

    /// Records a reference to `name` and returns its index; a name seen for
    /// the first time gets the next index, without content.
    pub fn reference(&mut self, name: &str) -> (r: usize)
        requires
            old(self).wf(),
            old(self).names().len() < usize::MAX || old(self).names().contains(name@),
        ensures
            final(self).wf(),
            referenced_as(*old(self), *final(self), name@, r),
    {
        let key = name.to_owned();
        let index = match self.position(&key) {
            Some(i) => i,
            None => {
                let ghost before = self.data@;
                self.data.push(Footnote { name: key, content: None });
                proof {
                    assert(self.names() =~= old(self).names().push(name@));
                    assert(self.contents() =~= old(self).contents().push(None));
                    assert forall|i: int, j: int| 0 <= i < j < self.data@.len() implies (
                    #[trigger] self.data@[i]).name@ != (#[trigger] self.data@[j]).name@ by {
                        if j == before.len() {
                            assert(old(self).names()[i] == before[i].name@);
                        }
                    }
                }
                self.data.len() - 1
            },
        };
        self.mark(index);
        proof {
            assert(self.names()[index as int] == self.data@[index as int].name@);
        }
        index
    }

    /// Adds `index` to the references, once.
    fn mark(&mut self, index: usize)
        requires
            old(self).wf(),
            index < old(self).data@.len(),
        ensures
            final(self).wf(),
            final(self).data == old(self).data,
            final(self).referenced() == old(self).referenced().insert(index),
    {
        let mut i: usize = 0;
        while i < self.references.len()
            invariant
                i <= self.references@.len(),
                forall|t: int| 0 <= t < i ==> self.references@[t] != index,
                self.wf(),
                self.data == old(self).data,
                self.references == old(self).references,
            decreases self.references@.len() - i,
        {
            if self.references[i] == index {
                proof {
                    assert(old(self).referenced().insert(index) =~= old(self).referenced());
                }
                return;
            }
            i += 1;
        }
        let ghost before = self.references@;
        self.references.push(index);
        proof {
            assert(self.references@.to_set() =~= before.to_set().insert(index)) by {
                assert forall|x: usize| #[trigger] self.references@.contains(x) <==> before.contains(x) || x == index by {
                    if self.references@.contains(x) {
                        let t = choose|t: int| 0 <= t < self.references@.len() && self.references@[t] == x;
                        if t < before.len() {
                            assert(before[t] == x);
                        }
                    }
                    if before.contains(x) {
                        let t = choose|t: int| 0 <= t < before.len() && before[t] == x;
                        assert(self.references@[t] == x);
                    }
                    assert(self.references@[before.len() as int] == index);
                }
            }
            assert forall|a: int, b: int| 0 <= a < b < self.references@.len() implies self.references@[a]
                != self.references@[b] by {
                if b == before.len() {
                    assert(self.references@[a] == before[a]);
                }
            }
        }
    }

    /// Defines the content of `name` and returns its index; a name seen for
    /// the first time gets the next index. An earlier content is replaced.
    pub fn definition(&mut self, name: &str, sections: Sections) -> (r: usize)
        requires
            old(self).wf(),
            old(self).names().len() < usize::MAX || old(self).names().contains(name@),
        ensures
            final(self).wf(),
            final(self).referenced() == old(self).referenced(),
            old(self).names().contains(name@) ==> final(self).names() == old(self).names()
                && final(self).contents() == old(self).contents().update(r as int, Some(sections)),
            !old(self).names().contains(name@) ==> r == old(self).names().len() && final(self).names()
                == old(self).names().push(name@) && final(self).contents() == old(self).contents().push(
                Some(sections),
            ),
            (r as int) < final(self).names().len(),
            final(self).names()[r as int] == name@,
    {
        let key = name.to_owned();
        let ghost before = self.data@;
        match self.position(&key) {
            Some(i) => {
                let Footnote { name: n, content: _ } = self.data.remove(i);
                self.data.insert(i, Footnote { name: n, content: Some(sections) });
                proof {
                    assert(self.data@ =~= before.update(i as int, Footnote { name: n, content: Some(sections) }));
                    assert(self.names() =~= old(self).names());
                    assert(self.contents() =~= old(self).contents().update(i as int, Some(sections)));
                    assert forall|a: int, b: int| 0 <= a < b < self.data@.len() implies (
                    #[trigger] self.data@[a]).name@ != (#[trigger] self.data@[b]).name@ by {
                        assert(self.data@[a].name@ == before[a].name@);
                        assert(self.data@[b].name@ == before[b].name@);
                    }
                }
                i
            },
            None => {
                self.data.push(Footnote { name: key, content: Some(sections) });
                proof {
                    assert(self.names() =~= old(self).names().push(name@));
                    assert(self.contents() =~= old(self).contents().push(Some(sections)));
                    assert forall|a: int, b: int| 0 <= a < b < self.data@.len() implies (
                    #[trigger] self.data@[a]).name@ != (#[trigger] self.data@[b]).name@ by {
                        if b == before.len() {
                            assert(old(self).names()[a] == before[a].name@);
                        }
                    }
                }
                self.data.len() - 1
            },
        }
    }

    /// The content of footnote `index`, if it has been defined.
    pub fn lookup(&self, index: usize) -> (r: Option<&Sections>)
        ensures
            index < self.contents().len() && self.contents()[index as int] is Some <==> r is Some,
            r is Some ==> self.contents()[index as int] == Some(*r->0),
    {
        if index < self.data.len() {
            match &self.data[index].content {
                Some(s) => Some(s),
                None => None,
            }
        } else {
            None
        }
    }

    /// The indices referenced since the last extraction, in ascending order;
    /// the references are cleared.
    pub fn extract_references(&mut self) -> (r: Vec<usize>)
        requires
            old(self).wf(),
        ensures
            final(self).wf(),
            extracted(*old(self), *final(self), r@),
    {
        let mut r: Vec<usize> = Vec::new();
        let n = self.data.len();
        let mut i: usize = 0;
        while i < n
            invariant
                n == self.data@.len(),
                self.wf(),
                i <= n,
                *self == *old(self),
                forall|x: usize| r@.contains(x) <==> x < i && self.references@.contains(x),
                forall|t: int| 0 <= t < r@.len() ==> r@[t] < i,
                forall|a: int, b: int| 0 <= a < b < r@.len() ==> r@[a] < r@[b],
            decreases n - i,
        {
            let mut found = false;
            let mut k: usize = 0;
            while k < self.references.len()
                invariant
                    k <= self.references@.len(),
                    found == exists|t: int| 0 <= t < k && self.references@[t] == i,
                decreases self.references@.len() - k,
            {
                if self.references[k] == i {
                    found = true;
                }
                k += 1;
            }
            let ghost before = r@;
            if found {
                r.push(i);
                proof {
                    assert forall|x: usize| r@.contains(x) <==> x < i + 1 && self.references@.contains(x) by {
                        if r@.contains(x) {
                            let t = choose|t: int| 0 <= t < r@.len() && r@[t] == x;
                            if t < before.len() {
                                assert(before.contains(x));
                            }
                        }
                        if x < i && self.references@.contains(x) {
                            assert(before.contains(x));
                            let t = choose|t: int| 0 <= t < before.len() && before[t] == x;
                            assert(r@[t] == x);
                        }
                        if x == i {
                            assert(r@[before.len() as int] == x);
                        }
                    }
                }
            } else {
                proof {
                    assert forall|x: usize| r@.contains(x) <==> x < i + 1 && self.references@.contains(x) by {
                        if x == i && self.references@.contains(x) {
                            let t = choose|t: int| 0 <= t < self.references@.len() && self.references@[t] == x;
                        }
                    }
                }
            }
            i += 1;
        }
        proof {
            assert(r@.to_set() =~= old(self).referenced()) by {
                assert forall|x: usize| r@.contains(x) implies self.references@.contains(x) by {}
                assert forall|x: usize| self.references@.contains(x) implies r@.contains(x) by {
                    let t = choose|t: int| 0 <= t < self.references@.len() && self.references@[t] == x;
                }
            }
        }
        self.references = Vec::new();
        proof {
            assert(self.referenced() =~= Set::empty());
        }
        r
    }

    /// The 1-based superscript label of footnote `index`: "¹" for 0, "¹⁰"
    /// for 9.
    pub fn index_to_superscript(index: usize) -> (r: String)
        requires
            index < usize::MAX,
        ensures
            r@ == superscript(index as nat + 1),
    {
        let mut digits: Vec<char> = Vec::new();
        push_superscript(index + 1, &mut digits);
        assert(digits@ =~= superscript(index as nat + 1));
        string_of(&digits)
    }
}

/// Referring to one name twice gives one index both times.
pub proof fn lemma_reference_idempotent(
    f0: Footnotes,
    f1: Footnotes,
    f2: Footnotes,
    name: Seq<char>,
    r1: usize,
    r2: usize,
)
    requires
        f0.wf(),
        f1.wf(),
        f2.wf(),
        referenced_as(f0, f1, name, r1),
        referenced_as(f1, f2, name, r2),
    ensures
        r1 == r2,
        f2.names() == f1.names(),
        f2.contents() == f1.contents(),
{
    assert(f1.names().contains(name)) by {
        assert(f1.names()[r1 as int] == name);
    }
    lemma_names_unique(f2, r1 as int, r2 as int);
}

/// There is a content entry for each name.
pub proof fn lemma_contents_len(f: Footnotes)
    ensures
        f.contents().len() == f.names().len(),
{
}

/// Equal names stand at one index.
pub proof fn lemma_names_unique(f: Footnotes, i: int, j: int)
    requires
        f.wf(),
        0 <= i < f.names().len(),
        0 <= j < f.names().len(),
        f.names()[i] == f.names()[j],
    ensures
        i == j,
{
    if i < j {
        assert(f.data@[i].name@ != f.data@[j].name@);
    } else if j < i {
        assert(f.data@[j].name@ != f.data@[i].name@);
    }
}

/// After references to two distinct names on a page without earlier
/// references, extraction gives both indices in ascending order, whichever
/// was referred to first.
pub proof fn lemma_extract_two_sorted(
    f0: Footnotes,
    f1: Footnotes,
    f2: Footnotes,
    f3: Footnotes,
    a: Seq<char>,
    b: Seq<char>,
    ra: usize,
    rb: usize,
    out: Seq<usize>,
)
    requires
        f0.wf(),
        f1.wf(),
        f2.wf(),
        f0.referenced().is_empty(),
        a != b,
        referenced_as(f0, f1, a, ra),
        referenced_as(f1, f2, b, rb),
        extracted(f2, f3, out),
    ensures
        ra != rb,
        ra < rb ==> out == seq![ra, rb],
        rb < ra ==> out == seq![rb, ra],
        f3.referenced().is_empty(),
{
    assert(f2.names()[ra as int] == a) by {
        if !f1.names().contains(b) {
            assert(f2.names()[ra as int] == f1.names()[ra as int]);
        }
    }
    assert(ra != rb);
    let s = out.to_set();
    assert(s =~= set![ra, rb]);
    assert(s.contains(ra) && s.contains(rb));
    assert(out.contains(ra) && out.contains(rb));
    let ia = choose|t: int| 0 <= t < out.len() && out[t] == ra;
    let ib = choose|t: int| 0 <= t < out.len() && out[t] == rb;
    assert(out.len() == 2) by {
        assert forall|t: int| 0 <= t < out.len() implies out[t] == ra || out[t] == rb by {
            assert(s.contains(out[t]));
        }
        if out.len() > 2 {
            let x = out[0];
            let y = out[1];
            let z = out[2];
            assert(x < y && y < z);
        }
    }
    if ra < rb {
        assert(ia == 0 && ib == 1);
        assert(out =~= seq![ra, rb]);
    } else {
        assert(ib == 0 && ia == 1);
        assert(out =~= seq![rb, ra]);
    }
}

} // verus!
