//! Header maps: ordered name/value pairs whose names compare without regard to ASCII case.
use vstd::prelude::*;

use crate::text::{ascii_lower, chars_eq_ignore_ascii_case, eq_ignore_ascii_case, str_to_chars};

verus! {

/// A collection of headers, in the order they were added.
#[derive(Debug)]
pub struct Headers {
    entries: Vec<(String, String)>,
}

pub open spec fn header_views(v: Seq<(String, String)>) -> Seq<(Seq<char>, Seq<char>)> {
    v.map_values(|e: (String, String)| (e.0@, e.1@))
}

/// The entries whose name is not `name`.
pub open spec fn without_name(h: Seq<(Seq<char>, Seq<char>)>, name: Seq<char>) -> Seq<(Seq<char>, Seq<char>)> {
    h.filter(|e: (Seq<char>, Seq<char>)| !eq_ignore_ascii_case(e.0, name))
}

/// The values of the entries named `name`, in order.
pub open spec fn header_values(h: Seq<(Seq<char>, Seq<char>)>, name: Seq<char>) -> Seq<Seq<char>>
    decreases h.len(),
{
    if h.len() == 0 {
        Seq::empty()
    } else {
        let prev = header_values(h.drop_last(), name);
        if eq_ignore_ascii_case(h.last().0, name) {
            prev.push(h.last().1)
        } else {
            prev
        }
    }
}

/// Index of the first entry named `name` at or after `from`.
pub open spec fn header_index(h: Seq<(Seq<char>, Seq<char>)>, name: Seq<char>, from: int) -> Option<int>
    decreases h.len() - from,
{
    if from < 0 || from >= h.len() {
        None
    } else if eq_ignore_ascii_case(h[from].0, name) {
        Some(from)
    } else {
        header_index(h, name, from + 1)
    }
}

proof fn lemma_header_index(h: Seq<(Seq<char>, Seq<char>)>, name: Seq<char>, from: int)
    requires
        0 <= from,
    ensures
        match header_index(h, name, from) {
            Some(i) => from <= i < h.len() && eq_ignore_ascii_case(h[i].0, name) && forall|j: int|
                from <= j < i ==> !eq_ignore_ascii_case(#[trigger] h[j].0, name),
            None => forall|j: int| from <= j < h.len() ==> !eq_ignore_ascii_case(#[trigger] h[j].0, name),
        },
    decreases h.len() - from,
{
    if from < h.len() && !eq_ignore_ascii_case(h[from].0, name) {
        lemma_header_index(h, name, from + 1);
    }
}

fn same_name(a: &str, b: &str) -> (r: bool)
    ensures
        r == eq_ignore_ascii_case(a@, b@),
{
    let ac = str_to_chars(a);
    let bc = str_to_chars(b);
    chars_eq_ignore_ascii_case(ac.as_slice(), bc.as_slice())
}

impl View for Headers {
    type V = Seq<(Seq<char>, Seq<char>)>;

    closed spec fn view(&self) -> Seq<(Seq<char>, Seq<char>)> {
        header_views(self.entries@)
    }
}

impl Headers {
    /// An empty collection of headers.
    pub fn new() -> (r: Self)
        ensures
            r@ == Seq::<(Seq<char>, Seq<char>)>::empty(),
    {
        let r = Headers { entries: Vec::new() };
        assert(r@ =~= Seq::<(Seq<char>, Seq<char>)>::empty());
        r
    }

    /// Number of header entries.
    pub fn len(&self) -> (r: usize)
        ensures
            r == self@.len(),
    {
        self.entries.len()
    }

    /// Whether there is no header.
    pub fn is_empty(&self) -> (r: bool)
        ensures
            r == (self@.len() == 0),
    {
        self.entries.len() == 0
    }

    /// Adds a value for a name, after the values already there.
    pub fn append(&mut self, name: String, value: String)
        ensures
            final(self)@ == old(self)@.push((name@, value@)),
    {
        let ghost n = name@;
        let ghost v = value@;
        self.entries.push((name, value));
        assert(self@ =~= old(self)@.push((n, v)));
    }

    /// Removes every value of a name.
    pub fn remove(&mut self, name: &str)
        ensures
            final(self)@ == without_name(old(self)@, name@),
    {
        let ghost old_view = self@;
        let mut kept: Vec<(String, String)> = Vec::new();
        let mut i: usize = 0;
        let n = self.entries.len();
        while i < n
            invariant
                n == self.entries@.len(),
                i <= n,
                old_view == header_views(self.entries@),
                header_views(kept@) == without_name(old_view.take(i as int), name@),
            decreases n - i,
        {
            let ghost before = kept@;
            proof {
                assert(old_view.take(i + 1) =~= old_view.take(i as int).push(old_view[i as int]));
                old_view.take(i as int).lemma_filter_push(old_view[i as int], |e: (Seq<char>, Seq<char>)| !eq_ignore_ascii_case(e.0, name@));
            }
            if !same_name(self.entries[i].0.as_str(), name) {
                let e = (self.entries[i].0.clone(), self.entries[i].1.clone());
                kept.push(e);
                assert(header_views(kept@) =~= header_views(before).push(old_view[i as int]));
            }
            i = i + 1;
        }
        assert(old_view.take(n as int) =~= old_view);
        self.entries = kept;
    }

    /// Sets the value of a name: its earlier values are removed and the new one is added last.
    pub fn insert(&mut self, name: String, value: String)
        ensures
            final(self)@ == without_name(old(self)@, name@).push((name@, value@)),
    {
        self.remove(name.as_str());
        self.append(name, value);
    }

    /// The first value of a name, if any.
    pub open spec fn spec_get(&self, name: Seq<char>) -> Option<Seq<char>> {
        match header_index(self@, name, 0) {
            Some(i) => Some(self@[i].1),
            None => None,
        }
    }

    /// Returns the first value of a name.
    pub fn get(&self, name: &str) -> (r: Option<&str>)
        ensures
            match r {
                Some(v) => self.spec_get(name@) == Some(v@),
                None => self.spec_get(name@) is None,
            },
    {
        let ghost h = self@;
        let n = self.entries.len();
        let mut i: usize = 0;
        while i < n
            invariant
                n == self.entries@.len(),
                h == self@,
                i <= n,
                forall|j: int| 0 <= j < i ==> !eq_ignore_ascii_case(#[trigger] h[j].0, name@),
            decreases n - i,
        {
            if same_name(self.entries[i].0.as_str(), name) {
                assert(h[i as int] == (self.entries@[i as int].0@, self.entries@[i as int].1@));
                proof {
                    lemma_header_index(h, name@, 0);
                    match header_index(h, name@, 0) {
                        Some(k) => {
                            if k < i {
                                assert(!eq_ignore_ascii_case(h[k].0, name@));
                            } else if k > i {
                                assert(!eq_ignore_ascii_case(h[i as int].0, name@));
                            }
                        },
                        None => {
                            assert(!eq_ignore_ascii_case(h[i as int].0, name@));
                        },
                    }
                }
                return Some(self.entries[i].1.as_str());
            }
            i = i + 1;
        }
        proof {
            lemma_header_index(h, name@, 0);
        }
        None
    }

    /// Whether a name has a value.
    pub fn contains_key(&self, name: &str) -> (r: bool)
        ensures
            r == (header_index(self@, name@, 0) is Some),
    {
        self.get(name).is_some()
    }

    /// The values of a name, in order.
    pub fn get_all(&self, name: &str) -> (r: Vec<String>)
        ensures
            crate::text::string_views(r@) == header_values(self@, name@),
    {
        let ghost h = self@;
        let mut out: Vec<String> = Vec::new();
        let n = self.entries.len();
        let mut i: usize = 0;
        assert(h.take(0) =~= Seq::<(Seq<char>, Seq<char>)>::empty());
        assert(crate::text::string_views(out@) =~= Seq::<Seq<char>>::empty());
        while i < n
            invariant
                n == self.entries@.len(),
                h == self@,
                h == header_views(self.entries@),
                i <= n,
                crate::text::string_views(out@) == header_values(h.take(i as int), name@),
            decreases n - i,
        {
            let ghost before = out@;
            assert(h.take(i + 1).drop_last() =~= h.take(i as int));
            assert(h[i as int] == (self.entries@[i as int].0@, self.entries@[i as int].1@));
            if same_name(self.entries[i].0.as_str(), name) {
                let v = self.entries[i].1.clone();
                out.push(v);
                proof {
                    crate::text::lemma_string_views_push(before, v);
                }
            }
            i = i + 1;
        }
        assert(h.take(n as int) =~= h);
        out
    }

    /// A copy of these headers.
    pub fn duplicate(&self) -> (r: Headers)
        ensures
            r@ == self@,
    {
        let mut out: Vec<(String, String)> = Vec::new();
        let n = self.entries.len();
        let mut i: usize = 0;
        while i < n
            invariant
                n == self.entries@.len(),
                i <= n,
                header_views(out@) == header_views(self.entries@.take(i as int)),
            decreases n - i,
        {
            let ghost before = out@;
            let e = (self.entries[i].0.clone(), self.entries[i].1.clone());
            out.push(e);
            assert(self.entries@.take(i + 1) =~= self.entries@.take(i as int).push(self.entries@[i as int]));
            assert(header_views(out@) =~= header_views(before).push((e.0@, e.1@)));
            assert(header_views(self.entries@.take(i + 1)) =~= header_views(self.entries@.take(i as int)).push((e.0@, e.1@)));
            i = i + 1;
        }
        assert(self.entries@.take(n as int) =~= self.entries@);
        Headers { entries: out }
    }
}

/// After a value is set for a name, reading that name, or the same name in another ASCII case,
/// gives that value, and no other value of the name is left.
pub proof fn law_insert_then_get(h: Seq<(Seq<char>, Seq<char>)>, name: Seq<char>, other: Seq<char>, value: Seq<char>)
    requires
        eq_ignore_ascii_case(other, name),
    ensures
        ({
            let after = without_name(h, name).push((name, value));
            &&& header_index(after, other, 0) == Some((after.len() - 1) as int)
            &&& header_values(after, other) == seq![value]
        }),
{
    let p = |e: (Seq<char>, Seq<char>)| !eq_ignore_ascii_case(e.0, name);
    let kept = h.filter(p);
    let after = kept.push((name, value));
    assert forall|i: int| 0 <= i < kept.len() implies !eq_ignore_ascii_case(#[trigger] kept[i].0, other) by {
        h.lemma_filter_pred(p, i);
        if eq_ignore_ascii_case(kept[i].0, other) {
            assert(eq_ignore_ascii_case(kept[i].0, name)) by {
                assert forall|j: int| 0 <= j < kept[i].0.len() implies ascii_lower(#[trigger] kept[i].0[j])
                    == ascii_lower(name[j]) by {
                    assert(ascii_lower(kept[i].0[j]) == ascii_lower(other[j]));
                    assert(ascii_lower(other[j]) == ascii_lower(name[j]));
                }
            }
        }
    }
    assert(eq_ignore_ascii_case(after[kept.len() as int].0, other)) by {
        assert forall|j: int| 0 <= j < name.len() implies ascii_lower(#[trigger] name[j]) == ascii_lower(other[j]) by {
            assert(ascii_lower(other[j]) == ascii_lower(name[j]));
        }
    }
    lemma_header_index(after, other, 0);
    match header_index(after, other, 0) {
        Some(i) => {
            if i < kept.len() {
                assert(after[i] == kept[i]);
            }
        },
        None => {},
    }
    lemma_header_values_none(kept, other);
    assert(after.drop_last() =~= kept);
}

proof fn lemma_header_values_none(h: Seq<(Seq<char>, Seq<char>)>, name: Seq<char>)
    requires
        forall|i: int| 0 <= i < h.len() ==> !eq_ignore_ascii_case(#[trigger] h[i].0, name),
    ensures
        header_values(h, name) == Seq::<Seq<char>>::empty(),
    decreases h.len(),
{
    if h.len() > 0 {
        lemma_header_values_none(h.drop_last(), name);
        assert(h.last() == h[h.len() - 1]);
    }
}

/// A name that has values is present: its first entry is found.
pub proof fn lemma_values_mean_present(h: Seq<(Seq<char>, Seq<char>)>, name: Seq<char>)
    requires
        header_values(h, name).len() > 0,
    ensures
        header_index(h, name, 0) is Some,
    decreases h.len(),
{
    lemma_header_index(h, name, 0);
    let n = (h.len() - 1) as int;
    if eq_ignore_ascii_case(h.last().0, name) {
        assert(eq_ignore_ascii_case(h[n].0, name));
    } else {
        let p = h.drop_last();
        lemma_values_mean_present(p, name);
        lemma_header_index(p, name, 0);
        let i = header_index(p, name, 0).unwrap();
        assert(h[i] == p[i]);
        assert(eq_ignore_ascii_case(h[i].0, name));
    }
}

} // verus!
