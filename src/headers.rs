//! The header table of a message: names mapped to values, each name at most
//! once, kept in the order in which names were first set.

use vstd::prelude::*;
use vstd::string::*;

verus! {

/// True when `es` holds an entry named `n`.
pub open spec fn has_name(es: Seq<(Seq<char>, Seq<char>)>, n: Seq<char>) -> bool {
    exists|i: int| 0 <= i < es.len() && es[i].0 == n
}

/// The index of an entry named `n` (the only one, where names are distinct).
pub open spec fn name_index(es: Seq<(Seq<char>, Seq<char>)>, n: Seq<char>) -> int {
    choose|i: int| 0 <= i < es.len() && es[i].0 == n
}

/// The value that `es` holds for the name `n`.
pub open spec fn lookup(es: Seq<(Seq<char>, Seq<char>)>, n: Seq<char>) -> Option<Seq<char>> {
    if has_name(es, n) {
        Some(es[name_index(es, n)].1)
    } else {
        None
    }
}

/// `es` with the value of `n` set to `v`: an existing entry is overwritten in
/// place, a new name goes last.
pub open spec fn table_set(es: Seq<(Seq<char>, Seq<char>)>, n: Seq<char>, v: Seq<char>) -> Seq<
    (Seq<char>, Seq<char>),
> {
    if has_name(es, n) {
        es.update(name_index(es, n), (n, v))
    } else {
        es.push((n, v))
    }
}

/// No two entries of `es` share a name.
pub open spec fn distinct_names(es: Seq<(Seq<char>, Seq<char>)>) -> bool {
    forall|i: int, j: int| 0 <= i < j < es.len() ==> es[i].0 != es[j].0
}

/// The wire form of one header: `<name>: <value>` and a CRLF.
pub open spec fn header_line(n: Seq<char>, v: Seq<char>) -> Seq<char> {
    n + ": "@ + v + "\r\n"@
}

/// The wire form of all entries, in table order.
pub open spec fn header_lines(es: Seq<(Seq<char>, Seq<char>)>) -> Seq<char>
    decreases es.len(),
{
    if es.len() == 0 {
        Seq::empty()
    } else {
        header_lines(es.drop_last()) + header_line(es.last().0, es.last().1)
    }
}

/// Where names are distinct, the entry named `n` sits at exactly one index.
pub proof fn lemma_name_index(es: Seq<(Seq<char>, Seq<char>)>, n: Seq<char>, i: int)
    requires
        distinct_names(es),
        0 <= i < es.len(),
        es[i].0 == n,
    ensures
        has_name(es, n),
        name_index(es, n) == i,
{
    let j = name_index(es, n);
    assert(0 <= j < es.len() && es[j].0 == n);
}

/// Setting a header keeps names distinct.
pub proof fn lemma_set_keeps_distinct(es: Seq<(Seq<char>, Seq<char>)>, n: Seq<char>, v: Seq<char>)
    requires
        distinct_names(es),
    ensures
        distinct_names(table_set(es, n, v)),
{
    if has_name(es, n) {
        let k = name_index(es, n);
        assert(0 <= k < es.len() && es[k].0 == n);
    }
}

/// After setting `n` to `v`, `n` gives `v` and every other name what it gave before.
pub proof fn lemma_lookup_after_set(
    es: Seq<(Seq<char>, Seq<char>)>,
    n: Seq<char>,
    v: Seq<char>,
    m: Seq<char>,
)
    requires
        distinct_names(es),
    ensures
        lookup(table_set(es, n, v), m) == (if m == n {
            Some(v)
        } else {
            lookup(es, m)
        }),
{
    let t = table_set(es, n, v);
    lemma_set_keeps_distinct(es, n, v);
    if has_name(es, n) {
        let k = name_index(es, n);
        assert(0 <= k < es.len() && es[k].0 == n);
        if m == n {
            lemma_name_index(t, n, k);
        } else if has_name(es, m) {
            let j = name_index(es, m);
            assert(0 <= j < es.len() && es[j].0 == m);
            lemma_name_index(t, m, j);
        } else {
            assert(!has_name(t, m)) by {
                if has_name(t, m) {
                    let j = name_index(t, m);
                    assert(0 <= j < es.len() && es[j].0 == m);
                }
            }
        }
    } else {
        let k = es.len() as int;
        if m == n {
            lemma_name_index(t, n, k);
        } else if has_name(es, m) {
            let j = name_index(es, m);
            assert(0 <= j < es.len() && es[j].0 == m);
            lemma_name_index(t, m, j);
        } else {
            assert(!has_name(t, m)) by {
                if has_name(t, m) {
                    let j = name_index(t, m);
                    assert(0 <= j < es.len() && es[j].0 == m);
                }
            }
        }
    }
}

/// Setting one header twice leaves the table as if only the later value had
/// been set, and that later value is what the name gives.
pub proof fn lemma_set_twice(
    es: Seq<(Seq<char>, Seq<char>)>,
    n: Seq<char>,
    v1: Seq<char>,
    v2: Seq<char>,
)
    requires
        distinct_names(es),
    ensures
        table_set(table_set(es, n, v1), n, v2) == table_set(es, n, v2),
        lookup(table_set(table_set(es, n, v1), n, v2), n) == Some(v2),
{
    let t = table_set(es, n, v1);
    lemma_set_keeps_distinct(es, n, v1);
    lemma_lookup_after_set(t, n, v2, n);
    if has_name(es, n) {
        let k = name_index(es, n);
        assert(0 <= k < es.len() && es[k].0 == n);
        lemma_name_index(t, n, k);
        assert(t.update(k, (n, v2)) =~= es.update(k, (n, v2)));
    } else {
        let k = es.len() as int;
        lemma_name_index(t, n, k);
        assert(t.update(k, (n, v2)) =~= es.push((n, v2)));
    }
}

/// Headers of a message, as a table from names to values.
pub struct HeaderTable {
    entries: Vec<(String, String)>,
}

impl View for HeaderTable {
    type V = Seq<(Seq<char>, Seq<char>)>;

    closed spec fn view(&self) -> Seq<(Seq<char>, Seq<char>)> {
        self.entries@.map_values(|p: (String, String)| (p.0@, p.1@))
    }
}

impl HeaderTable {
    #[verifier::type_invariant]
    spec fn names_are_distinct(&self) -> bool {
        distinct_names(self@)
    }

    pub fn new() -> (r: HeaderTable)
        ensures
            r@ == Seq::<(Seq<char>, Seq<char>)>::empty(),
    {
        let r = HeaderTable { entries: Vec::new() };
        assert(r@ =~= Seq::<(Seq<char>, Seq<char>)>::empty());
        r
    }

    /// Index of the entry named `name`, if any.
    fn position(&self, name: &String) -> (r: Option<usize>)
        ensures
            match r {
                Some(i) => i < self@.len() && self@[i as int].0 == name@,
                None => !has_name(self@, name@),
            },
    {
        let mut i: usize = 0;
        while i < self.entries.len()
            invariant
                i <= self.entries@.len(),
                self@.len() == self.entries@.len(),
                forall|j: int| 0 <= j < i ==> self@[j].0 != name@,
            decreases self.entries@.len() - i,
        {
            if self.entries[i].0 == *name {
                return Some(i);
            }
            i = i + 1;
        }
        None
    }

    /// The value set for `name`, compared exactly.
    pub fn get(&self, name: &str) -> (r: Option<&String>)
        ensures
            match r {
                Some(v) => lookup(self@, name@) == Some(v@),
                None => lookup(self@, name@) is None,
            },
    {
        proof {
            use_type_invariant(self);
        }
        let key = name.to_owned();
        match self.position(&key) {
            Some(i) => {
                proof {
                    lemma_name_index(self@, name@, i as int);
                }
                Some(&self.entries[i].1)
            },
            None => None,
        }
    }

    /// Sets `name` to `value`, overwriting an existing entry of that name.
    pub fn set(&mut self, name: String, value: String)
        ensures
            final(self)@ == table_set(old(self)@, name@, value@),
    {
        proof {
            use_type_invariant(&*self);
        }
        let pos = self.position(&name);
        let ghost old_view = self@;
        let ghost n = name@;
        let ghost v = value@;
        let mut es: Vec<(String, String)> = Vec::new();
        std::mem::swap(&mut es, &mut self.entries);
        match pos {
            Some(i) => {
                proof {
                    lemma_name_index(old_view, n, i as int);
                }
                es.set(i, (name, value));
            },
            None => {
                es.push((name, value));
            },
        }
        proof {
            lemma_set_keeps_distinct(old_view, n, v);
            assert(es@.map_values(|p: (String, String)| (p.0@, p.1@)) =~= table_set(
                old_view,
                n,
                v,
            ));
        }
        self.entries = es;
    }

    /// Appends the wire form of every entry to `out`.
    pub fn append_lines(&self, out: &mut String)
        ensures
            final(out)@ == old(out)@ + header_lines(self@),
    {
        let mut i: usize = 0;
        while i < self.entries.len()
            invariant
                i <= self.entries@.len(),
                self@.len() == self.entries@.len(),
                out@ == old(out)@ + header_lines(self@.subrange(0, i as int)),
            decreases self.entries@.len() - i,
        {
            let entry = &self.entries[i];
            out.append(entry.0.as_str());
            out.append(": ");
            out.append(entry.1.as_str());
            out.append("\r\n");
            proof {
                let es = self@.subrange(0, i + 1);
                assert(es.drop_last() =~= self@.subrange(0, i as int));
            }
            i = i + 1;
        }
        assert(self@.subrange(0, self@.len() as int) =~= self@);
    }
}

} // verus!
