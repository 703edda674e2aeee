//! The path, query and fragment of a URI: `path ["?" query] ["#" fragment]`.
use vstd::prelude::*;

use super::authority::opt_string_view;
use super::uri::{InvalidUri, InvalidUriView};
use crate::json::map::{MapKey, OrderedMap};
use crate::text::{
    chars_eq, lemma_str_views_push, lemma_string_views_push, lemma_string_views_take, str_eq, str_views, string_views,
    copy_chars, find_char, find_char_from, first_index, first_index_from, lemma_first_index_from,
    lemma_first_index_is, lemma_first_index_none,
    str_to_chars, subrange_to_string, push_str, string_push,
};

verus! {

/// Represents the path and query from an URI.
#[derive(Debug, PartialEq, Eq, PartialOrd, Ord, Hash)]
pub struct PathAndQuery {
    path: String,
    query: Option<String>,
    fragment: Option<String>,
}

/// The abstract value of a path and query.
pub struct PathAndQueryView {
    pub path: Seq<char>,
    pub query: Option<Seq<char>>,
    pub fragment: Option<Seq<char>>,
}

impl View for PathAndQuery {
    type V = PathAndQueryView;

    closed spec fn view(&self) -> PathAndQueryView {
        PathAndQueryView {
            path: self.path@,
            query: opt_string_view(self.query),
            fragment: opt_string_view(self.fragment),
        }
    }
}

/// Whether a text starts with `/`.
pub open spec fn starts_with_slash(s: Seq<char>) -> bool {
    s.len() > 0 && s[0] == '/'
}

/// The pieces of `cs` between occurrences of `c`, as `str::split` yields them.
pub open spec fn split_chars(cs: Seq<char>, c: char) -> Seq<Seq<char>>
    decreases cs.len(),
{
    match first_index(cs, c) {
        None => seq![cs],
        Some(i) => {
            if 0 <= i < cs.len() {
                seq![cs.subrange(0, i)] + split_chars(cs.subrange(i + 1, cs.len() as int), c)
            } else {
                seq![cs]
            }
        },
    }
}


/// Splitting gives at least one part.
pub proof fn lemma_split_chars_nonempty(cs: Seq<char>, c: char)
    ensures
        split_chars(cs, c).len() >= 1,
{
}

/// Splits `cs[from..]` at every occurrence of `c`.
pub fn split_chars_from(cs: &[char], from: usize, c: char) -> (r: Vec<String>)
    requires
        from <= cs@.len(),
    ensures
        string_views(r@) == split_chars(cs@.subrange(from as int, cs@.len() as int), c),
{
    let mut out: Vec<String> = Vec::new();
    let mut start = from;
    loop
        invariant
            from <= start <= cs@.len(),
            string_views(out@) + split_chars(cs@.subrange(start as int, cs@.len() as int), c)
                == split_chars(cs@.subrange(from as int, cs@.len() as int), c),
        decreases cs@.len() - start,
    {
        let ghost rest = cs@.subrange(start as int, cs@.len() as int);
        let ghost prev = out@;
        proof {
            lemma_first_index_from(rest, c, 0);
        }
        match find_char_from(cs, c, start) {
            Some(i) => {
                proof {
                    lemma_first_index_from(cs@, c, start as int);
                    assert(first_index(rest, c) == Some(i - start)) by {
                        assert(rest[i - start] == c);
                        assert(forall|j: int| 0 <= j < i - start ==> rest[j] == cs@[start + j]);
                    }
                    assert(rest.subrange(0, i - start) =~= cs@.subrange(start as int, i as int));
                    assert(rest.subrange(i - start + 1, rest.len() as int) =~= cs@.subrange(
                        i + 1,
                        cs@.len() as int,
                    ));
                }
                let piece = subrange_to_string(cs, start, i);
                out.push(piece);
                proof {
                    assert(string_views(out@) =~= string_views(prev).push(piece@));
                    assert(split_chars(rest, c) =~= seq![piece@] + split_chars(
                        cs@.subrange(i + 1, cs@.len() as int),
                        c,
                    ));
                    assert(string_views(out@) + split_chars(cs@.subrange(i + 1, cs@.len() as int), c)
                        =~= string_views(prev) + split_chars(rest, c));
                }
                let n = cs.len();
                assert(i < n);
                start = i + 1;
            },
            None => {
                proof {
                    lemma_first_index_from(cs@, c, start as int);
                    if first_index(rest, c) is Some {
                        let k = first_index(rest, c).unwrap();
                        assert(cs@[start + k] == c);
                    }
                }
                let piece = subrange_to_string(cs, start, cs.len());
                out.push(piece);
                proof {
                    assert(string_views(out@) =~= string_views(prev).push(piece@));
                    assert(string_views(out@) =~= string_views(prev) + split_chars(rest, c));
                }
                return out;
            },
        }
    }
}

/// The segments of a path: without one leading and then one trailing `/`, split at `/`.
pub open spec fn spec_segments(path: Seq<char>) -> Seq<Seq<char>> {
    let p1 = if path.len() > 0 && path[0] == '/' {
        path.drop_first()
    } else {
        path
    };
    let p2 = if p1.len() > 0 && p1.last() == '/' {
        p1.drop_last()
    } else {
        p1
    };
    split_chars(p2, '/')
}

/// The `name=value` pairs of a query, in order, up to the first part without `=`; each part is
/// split at its first `=`.
pub open spec fn query_pairs(parts: Seq<Seq<char>>) -> Seq<(Seq<char>, Seq<char>)>
    decreases parts.len(),
{
    if parts.len() == 0 {
        Seq::empty()
    } else {
        match first_index(parts[0], '=') {
            None => Seq::empty(),
            Some(i) => seq![(parts[0].subrange(0, i), parts[0].subrange(i + 1, parts[0].len() as int))]
                + query_pairs(parts.drop_first()),
        }
    }
}

/// A query value: one value, or the list of values of a repeated name.
#[derive(Debug, PartialEq, Eq, PartialOrd, Ord, Hash)]
pub enum QueryValue {
    One(String),
    List(Vec<String>),
}

/// The abstract value of a query value.
pub enum QueryValueView {
    One(Seq<char>),
    List(Seq<Seq<char>>),
}

impl View for QueryValue {
    type V = QueryValueView;

    open spec fn view(&self) -> QueryValueView {
        match self {
            QueryValue::One(s) => QueryValueView::One(s@),
            QueryValue::List(l) => QueryValueView::List(string_views(l@)),
        }
    }
}

/// Adds one more value for a name.
pub open spec fn query_value_add(q: QueryValueView, v: Seq<char>) -> QueryValueView {
    match q {
        QueryValueView::One(s) => QueryValueView::List(seq![s, v]),
        QueryValueView::List(l) => QueryValueView::List(l.push(v)),
    }
}

/// Index of the first entry with the given name.
pub open spec fn entry_index(m: Seq<(Seq<char>, QueryValueView)>, k: Seq<char>, from: int) -> Option<int>
    decreases m.len() - from,
{
    if from < 0 || from >= m.len() {
        None
    } else if m[from].0 == k {
        Some(from)
    } else {
        entry_index(m, k, from + 1)
    }
}

/// The entries after recording the pair `k=v`.
pub open spec fn query_map_add(m: Seq<(Seq<char>, QueryValueView)>, k: Seq<char>, v: Seq<char>) -> Seq<(Seq<char>, QueryValueView)> {
    match entry_index(m, k, 0) {
        Some(j) => m.update(j, (k, query_value_add(m[j].1, v))),
        None => m.push((k, QueryValueView::One(v))),
    }
}

/// The entries of the query map of a sequence of pairs, in order of first appearance.
pub open spec fn query_map_entries(pairs: Seq<(Seq<char>, Seq<char>)>) -> Seq<(Seq<char>, QueryValueView)>
    decreases pairs.len(),
{
    if pairs.len() == 0 {
        Seq::empty()
    } else {
        query_map_add(query_map_entries(pairs.drop_last()), pairs.last().0, pairs.last().1)
    }
}

/// A path and query written by a text: the fragment follows the first `#`, the query follows the
/// first `?` before it; an empty text is the path `/`.
pub open spec fn spec_parse_path_query(s: Seq<char>) -> Result<PathAndQueryView, InvalidUriView> {
    if s.len() == 0 {
        Ok(PathAndQueryView { path: seq!['/'], query: None, fragment: None })
    } else if s[0] != '/' {
        Err(InvalidUriView::InvalidPath)
    } else {
        let (s1, fragment) = match first_index(s, '#') {
            Some(i) => (s.subrange(0, i), Some(s.subrange(i + 1, s.len() as int))),
            None => (s, None),
        };
        let (s2, query) = match first_index(s1, '?') {
            Some(i) => (s1.subrange(0, i), Some(s1.subrange(i + 1, s1.len() as int))),
            None => (s1, None),
        };
        Ok(PathAndQueryView { path: s2, query, fragment })
    }
}

/// A map from query names to their values, in order of first appearance.
#[derive(Debug)]
pub struct QueryMap(OrderedMap<String, QueryValue>);

impl View for QueryMap {
    type V = Seq<(Seq<char>, QueryValueView)>;

    closed spec fn view(&self) -> Seq<(Seq<char>, QueryValueView)> {
        Seq::new(self.0.key_seq().len(), |i: int| (self.0.key_seq()[i]@, self.0.value_seq()[i]@))
    }
}


pub open spec fn entry_views(v: Seq<(String, QueryValue)>) -> Seq<(Seq<char>, QueryValueView)> {
    v.map_values(|e: (String, QueryValue)| (e.0@, e.1@))
}

pub open spec fn distinct_names(m: Seq<(Seq<char>, QueryValueView)>) -> bool {
    forall|i: int, j: int| 0 <= i < m.len() && 0 <= j < m.len() && i != j ==> (#[trigger] m[i]).0 != (#[trigger] m[j]).0
}

proof fn lemma_entry_index(m: Seq<(Seq<char>, QueryValueView)>, k: Seq<char>, from: int)
    requires
        0 <= from,
    ensures
        match entry_index(m, k, from) {
            Some(i) => from <= i < m.len() && m[i].0 == k && forall|j: int| from <= j < i ==> m[j].0 != k,
            None => forall|j: int| from <= j < m.len() ==> m[j].0 != k,
        },
    decreases m.len() - from,
{
    if from < m.len() && m[from].0 != k {
        lemma_entry_index(m, k, from + 1);
    }
}

/// The values of the pairs named `k`, in order.
pub open spec fn values_named(pairs: Seq<(Seq<char>, Seq<char>)>, k: Seq<char>) -> Seq<Seq<char>>
    decreases pairs.len(),
{
    if pairs.len() == 0 {
        Seq::empty()
    } else {
        let prev = values_named(pairs.drop_last(), k);
        if pairs.last().0 == k {
            prev.push(pairs.last().1)
        } else {
            prev
        }
    }
}

/// The values of a query value, in order.
pub open spec fn value_list(q: QueryValueView) -> Seq<Seq<char>> {
    match q {
        QueryValueView::One(s) => seq![s],
        QueryValueView::List(l) => l,
    }
}

proof fn lemma_entry_index_same_names(m: Seq<(Seq<char>, QueryValueView)>, n: Seq<(Seq<char>, QueryValueView)>, k: Seq<char>)
    requires
        m.len() == n.len(),
        forall|i: int| 0 <= i < m.len() ==> #[trigger] m[i].0 == n[i].0,
    ensures
        entry_index(m, k, 0) == entry_index(n, k, 0),
{
    lemma_entry_index(m, k, 0);
    lemma_entry_index(n, k, 0);
    match entry_index(m, k, 0) {
        Some(i) => {
            assert(n[i].0 == k);
            match entry_index(n, k, 0) {
                Some(j) => {
                    if j < i {
                        assert(m[j].0 == n[j].0);
                    }
                },
                None => {},
            }
        },
        None => {
            match entry_index(n, k, 0) {
                Some(j) => {
                    assert(m[j].0 == n[j].0);
                },
                None => {},
            }
        },
    }
}

/// In the query map of a sequence of pairs, a name has an entry exactly when some pair has that
/// name, and the entry holds the values of those pairs, in order: its first value is the value of
/// the first pair with that name.
pub proof fn law_query_map_collects_values(pairs: Seq<(Seq<char>, Seq<char>)>, k: Seq<char>)
    ensures
        match entry_index(query_map_entries(pairs), k, 0) {
            Some(j) => value_list(query_map_entries(pairs)[j].1) == values_named(pairs, k) && values_named(pairs, k).len()
                > 0,
            None => values_named(pairs, k).len() == 0,
        },
    decreases pairs.len(),
{
    if pairs.len() > 0 {
        let prev = pairs.drop_last();
        law_query_map_collects_values(prev, k);
        let m = query_map_entries(prev);
        let (k2, v) = pairs.last();
        let r = query_map_entries(pairs);
        assert(r == query_map_add(m, k2, v));
        lemma_entry_index(m, k2, 0);
        lemma_entry_index(m, k, 0);
        match entry_index(m, k2, 0) {
            Some(j2) => {
                lemma_entry_index_same_names(m, r, k);
                if k2 == k {
                    assert(value_list(query_value_add(m[j2].1, v)) =~= value_list(m[j2].1).push(v));
                }
            },
            None => {
                lemma_entry_index(r, k, 0);
                if k2 == k {
                    assert(r[m.len() as int].0 == k);
                    match entry_index(r, k, 0) {
                        Some(j) => {
                            if j < m.len() {
                                assert(r[j] == m[j]);
                            }
                        },
                        None => {},
                    }
                    assert(value_list(QueryValueView::One(v)) =~= Seq::<Seq<char>>::empty().push(v));
                } else {
                    match entry_index(m, k, 0) {
                        Some(j) => {
                            assert(r[j] == m[j]);
                            match entry_index(r, k, 0) {
                                Some(j3) => {
                                    if j3 < j {
                                        assert(r[j3] == m[j3]);
                                    }
                                },
                                None => {},
                            }
                        },
                        None => {
                            match entry_index(r, k, 0) {
                                Some(j3) => {
                                    if j3 < m.len() {
                                        assert(r[j3] == m[j3]);
                                    }
                                },
                                None => {},
                            }
                        },
                    }
                }
            },
        }
    }
}

proof fn lemma_query_map_add_distinct(m: Seq<(Seq<char>, QueryValueView)>, k: Seq<char>, v: Seq<char>)
    requires
        distinct_names(m),
    ensures
        distinct_names(query_map_add(m, k, v)),
{
    lemma_entry_index(m, k, 0);
    let r = query_map_add(m, k, v);
    assert forall|i: int, j: int| 0 <= i < r.len() && 0 <= j < r.len() && i != j implies (#[trigger] r[i]).0 != (#[trigger] r[j]).0 by {
        match entry_index(m, k, 0) {
            Some(x) => {
                assert(r[i].0 == m[i].0);
                assert(r[j].0 == m[j].0);
            },
            None => {
                if i < m.len() && j < m.len() {
                } else if i < m.len() {
                    assert(r[j].0 == k);
                } else {
                    assert(r[i].0 == k);
                }
            },
        }
    };
}

fn find_entry(entries: &Vec<(String, QueryValue)>, k: &String) -> (r: Option<usize>)
    ensures
        match r {
            Some(j) => entry_index(entry_views(entries@), k@, 0) == Some(j as int) && j < entries@.len(),
            None => entry_index(entry_views(entries@), k@, 0) is None,
        },
{
    let ghost ev = entry_views(entries@);
    proof {
        lemma_entry_index(ev, k@, 0);
    }
    let mut j: usize = 0;
    while j < entries.len()
        invariant
            j <= entries@.len(),
            ev == entry_views(entries@),
            forall|x: int| 0 <= x < j ==> ev[x].0 != k@,
        decreases entries@.len() - j,
    {
        if str_eq(entries[j].0.as_str(), k.as_str()) {
            assert(ev[j as int].0 == k@);
            proof {
                lemma_entry_index(ev, k@, 0);
            }
            return Some(j);
        }
        j = j + 1;
    }
    proof {
        lemma_entry_index(ev, k@, 0);
    }
    None
}

impl QueryValue {
    /// A copy of this value.
    pub fn duplicate(&self) -> (r: QueryValue)
        ensures
            r@ == self@,
    {
        match self {
            QueryValue::One(s) => QueryValue::One(s.clone()),
            QueryValue::List(l) => {
                let mut out: Vec<String> = Vec::new();
                let mut i: usize = 0;
                assert(string_views(out@) =~= string_views(l@.take(0)));
                while i < l.len()
                    invariant
                        i <= l@.len(),
                        string_views(out@) == string_views(l@.take(i as int)),
                    decreases l@.len() - i,
                {
                    let c = l[i].clone();
                    proof {
                        lemma_string_views_push(out@, c);
                        lemma_string_views_take(l@, i as int);
                    }
                    out.push(c);
                    i = i + 1;
                }
                assert(l@.take(l@.len() as int) =~= l@);
                QueryValue::List(out)
            },
        }
    }

    /// This value with one more value for the same name.
    fn add(self, v: String) -> (r: QueryValue)
        ensures
            r@ == query_value_add(self@, v@),
    {
        match self {
            QueryValue::One(s) => {
                let mut l: Vec<String> = Vec::new();
                l.push(s);
                l.push(v);
                assert(string_views(l@) =~= seq![s@, v@]);
                QueryValue::List(l)
            },
            QueryValue::List(l) => {
                let mut l = l;
                let ghost old_l = l@;
                l.push(v);
                assert(string_views(l@) =~= string_views(old_l).push(v@));
                QueryValue::List(l)
            },
        }
    }
}

/// The text of a path and query: the path, then `?` and the query, then `#` and the fragment.
pub open spec fn path_query_display(p: PathAndQueryView) -> Seq<char> {
    p.path + (match p.query {
        Some(q) => seq!['?'] + q,
        None => Seq::<char>::empty(),
    }) + (match p.fragment {
        Some(f) => seq!['#'] + f,
        None => Seq::<char>::empty(),
    })
}

impl PathAndQuery {
    /// Appends the text of this path and query.
    pub fn write_to(&self, out: &mut String)
        ensures
            final(out)@ == old(out)@ + path_query_display(self@),
    {
        push_str(out, self.path.as_str());
        if let Some(q) = &self.query {
            string_push(out, '?');
            push_str(out, q.as_str());
        }
        if let Some(f) = &self.fragment {
            string_push(out, '#');
            push_str(out, f.as_str());
        }
        assert(out@ =~= old(out)@ + path_query_display(self@));
    }

    /// The text of this path and query.
    pub fn to_string(&self) -> (r: String)
        ensures
            r@ == path_query_display(self@),
    {
        let mut out = String::new();
        self.write_to(&mut out);
        assert(out@ =~= path_query_display(self@));
        out
    }

    /// Constructs a new `PathAndQuery`; the path must start with `/`.
    pub fn new(path: String, query: Option<String>, fragment: Option<String>) -> (r: Self)
        requires
            starts_with_slash(path@),
        ensures
            r@ == (PathAndQueryView { path: path@, query: opt_string_view(query), fragment: opt_string_view(fragment) }),
    {
        PathAndQuery { path, query, fragment }
    }

    /// Constructs a new `PathAndQuery` from the given path.
    pub fn with_path(path: String) -> (r: Self)
        requires
            starts_with_slash(path@),
        ensures
            r@ == (PathAndQueryView { path: path@, query: None, fragment: None }),
    {
        Self::new(path, None, None)
    }

    /// Constructs a new `PathAndQuery` from the given path and query.
    pub fn with_path_query(path: String, query: String) -> (r: Self)
        requires
            starts_with_slash(path@),
        ensures
            r@ == (PathAndQueryView { path: path@, query: Some(query@), fragment: None }),
    {
        Self::new(path, Some(query), None)
    }

    /// Returns the path.
    pub fn path(&self) -> (r: &str)
        ensures
            r@ == self@.path,
    {
        self.path.as_str()
    }

    /// Returns the query if any or `None`.
    pub fn query(&self) -> (r: Option<&str>)
        ensures
            match r {
                Some(q) => self@.query == Some(q@),
                None => self@.query is None,
            },
    {
        match &self.query {
            Some(q) => Some(q.as_str()),
            None => None,
        }
    }

    /// Returns the fragment if any or `None`.
    pub fn fragment(&self) -> (r: Option<&str>)
        ensures
            match r {
                Some(q) => self@.fragment == Some(q@),
                None => self@.fragment is None,
            },
    {
        match &self.fragment {
            Some(q) => Some(q.as_str()),
            None => None,
        }
    }

    /// The `name=value` pairs of the query, in order.
    pub open spec fn spec_query_values(&self) -> Seq<(Seq<char>, Seq<char>)> {
        match self@.query {
            Some(q) => query_pairs(split_chars(q, '&')),
            None => Seq::empty(),
        }
    }

    /// The query values: the parts between `&`, each split at its first `=`, stopping at the
    /// first part without `=`.
    pub fn query_values(&self) -> (r: Vec<(String, String)>)
        ensures
            r@.map_values(|p: (String, String)| (p.0@, p.1@)) == self.spec_query_values(),
    {
        let mut out: Vec<(String, String)> = Vec::new();
        match &self.query {
            None => {
                assert(out@.map_values(|p: (String, String)| (p.0@, p.1@)) =~= Seq::<(Seq<char>, Seq<char>)>::empty());
                out
            },
            Some(q) => {
                let qc = str_to_chars(q.as_str());
                let parts = split_chars_from(qc.as_slice(), 0, '&');
                assert(qc@.subrange(0, qc@.len() as int) =~= qc@);
                let ghost all = string_views(parts@);
                assert(all == split_chars(q@, '&'));
                let mut i: usize = 0;
                assert(all.subrange(0, all.len() as int) =~= all);
                assert(out@.map_values(|p: (String, String)| (p.0@, p.1@)) =~= Seq::<(Seq<char>, Seq<char>)>::empty());
                assert(Seq::<(Seq<char>, Seq<char>)>::empty() + query_pairs(all) =~= query_pairs(all));
                while i < parts.len()
                    invariant
                        i <= parts@.len(),
                        all == string_views(parts@),
                        qc@ == q@,
                        self@.query == Some(q@),
                        all == split_chars(q@, '&'),
                        query_pairs(all) == out@.map_values(|p: (String, String)| (p.0@, p.1@)) + query_pairs(all.subrange(i as int, all.len() as int)),
                    decreases parts@.len() - i,
                {
                    let ghost prev = out@;
                    let ghost tail = all.subrange(i as int, all.len() as int);
                    let pc = str_to_chars(parts[i].as_str());
                    assert(tail[0] == pc@);
                    proof {
                        crate::text::lemma_first_index_from(pc@, '=', 0);
                    }
                    match find_char(pc.as_slice(), '=') {
                        None => {
                            assert(query_pairs(tail) =~= Seq::<(Seq<char>, Seq<char>)>::empty());
                            assert(query_pairs(all) =~= out@.map_values(|p: (String, String)| (p.0@, p.1@)));
                            assert(qc@ == q@);
                            return out;
                        },
                        Some(k) => {
                            let name = subrange_to_string(pc.as_slice(), 0, k);
                            let value = subrange_to_string(pc.as_slice(), k + 1, pc.len());
                            out.push((name, value));
                            assert(tail.drop_first() =~= all.subrange(i + 1, all.len() as int));
                            assert(query_pairs(tail) == seq![(name@, value@)] + query_pairs(tail.drop_first()));
                            assert(out@.map_values(|p: (String, String)| (p.0@, p.1@)) =~= prev.map_values(|p: (String, String)| (p.0@, p.1@)).push((name@, value@)));
                            i = i + 1;
                        },
                    }
                }
                assert(all.subrange(i as int, all.len() as int) =~= Seq::<Seq<char>>::empty());
                assert(query_pairs(all) =~= out@.map_values(|p: (String, String)| (p.0@, p.1@)));
                assert(qc@ == q@);
                out
            },
        }
    }

    /// Create a map over the query values: a repeated name collects its values in order.
    pub fn query_map(&self) -> (r: QueryMap)
        ensures
            r.wf(),
            r@ == query_map_entries(self.spec_query_values()),
    {
        let pairs = self.query_values();
        let ghost pv = pairs@.map_values(|p: (String, String)| (p.0@, p.1@));
        let mut entries: Vec<(String, QueryValue)> = Vec::new();
        let mut i: usize = 0;
        while i < pairs.len()
            invariant
                i <= pairs@.len(),
                pv == pairs@.map_values(|p: (String, String)| (p.0@, p.1@)),
                entry_views(entries@) == query_map_entries(pv.take(i as int)),
                distinct_names(entry_views(entries@)),
            decreases pairs@.len() - i,
        {
            let ghost before = entry_views(entries@);
            let (k, v) = (&pairs[i].0, &pairs[i].1);
            assert(pv.take(i + 1).drop_last() =~= pv.take(i as int));
            proof {
                lemma_entry_index(before, k@, 0);
            }
            let found = find_entry(&entries, k);
            proof {
                lemma_query_map_add_distinct(before, k@, v@);
            }
            if let Some(j) = found {
                let newv = entries[j].1.duplicate().add(v.clone());
                entries.set(j, (k.clone(), newv));
                assert(entry_views(entries@) =~= query_map_add(before, k@, v@));
            } else {
                entries.push((k.clone(), QueryValue::One(v.clone())));
                assert(entry_views(entries@) =~= query_map_add(before, k@, v@));
            }
            i = i + 1;
        }
        assert(pv.take(pairs@.len() as int) =~= pv);
        let ghost ev = entry_views(entries@);
        assert forall|a: int, b: int| 0 <= a < entries@.len() && 0 <= b < entries@.len() && a != b implies (#[trigger] entries@[a]).0.key_view() != (#[trigger] entries@[b]).0.key_view() by {
            assert(ev[a].0 != ev[b].0);
        };
        let map = OrderedMap::from_distinct_entries(entries);
        let r = QueryMap(map);
        assert(r@ =~= ev);
        r
    }

    /// The segments of the path, without one leading and one trailing `/`.
    pub fn segments(&self) -> (r: Vec<String>)
        ensures
            string_views(r@) == spec_segments(self@.path),
    {
        let cs = str_to_chars(self.path.as_str());
        let mut start: usize = 0;
        let mut end: usize = cs.len();
        if end > 0 && cs[0] == '/' {
            start = 1;
        }
        if end > start && cs[end - 1] == '/' {
            end = end - 1;
        }
        let p = copy_chars(cs.as_slice(), start, end);
        proof {
            let p1 = if cs@.len() > 0 && cs@[0] == '/' { cs@.drop_first() } else { cs@ };
            assert(p1 =~= cs@.subrange(start as int, cs@.len() as int));
            let p2 = if p1.len() > 0 && p1.last() == '/' { p1.drop_last() } else { p1 };
            assert(p2 =~= p@);
        }
        let r = split_chars_from(p.as_slice(), 0, '/');
        assert(p@.subrange(0, p@.len() as int) =~= p@);
        r
    }

    /// Parses a path and query.
    pub fn from_str(s: &str) -> (r: Result<PathAndQuery, InvalidUri>)
        ensures
            match r {
                Ok(pq) => spec_parse_path_query(s@) == Ok::<PathAndQueryView, InvalidUriView>(pq@),
                Err(e) => spec_parse_path_query(s@) == Err::<PathAndQueryView, InvalidUriView>(e@),
            },
    {
        let cs = str_to_chars(s);
        parse_path_query_chars(cs.as_slice())
    }

    /// A copy of this path and query.
    pub fn duplicate(&self) -> (r: PathAndQuery)
        ensures
            r@ == self@,
    {
        let query = match &self.query {
            Some(q) => Some(q.clone()),
            None => None,
        };
        let fragment = match &self.fragment {
            Some(q) => Some(q.clone()),
            None => None,
        };
        PathAndQuery { path: self.path.clone(), query, fragment }
    }
}

/// Parses a path and query from characters.
pub fn parse_path_query_chars(cs: &[char]) -> (r: Result<PathAndQuery, InvalidUri>)
    ensures
        match r {
            Ok(pq) => spec_parse_path_query(cs@) == Ok::<PathAndQueryView, InvalidUriView>(pq@),
            Err(e) => spec_parse_path_query(cs@) == Err::<PathAndQueryView, InvalidUriView>(e@),
        },
{
    if cs.len() == 0 {
        let mut p = String::new();
        crate::text::string_push(&mut p, '/');
        assert(p@ =~= seq!['/']);
        return Ok(PathAndQuery { path: p, query: None, fragment: None });
    }
    if cs[0] != '/' {
        return Err(InvalidUri::InvalidPath);
    }
    let n = cs.len();
    let (end1, fragment) = match find_char(cs, '#') {
        Some(i) => (i, Some(subrange_to_string(cs, i + 1, n))),
        None => (n, None),
    };
    let s1 = copy_chars(cs, 0, end1);
    let (end2, query) = match find_char(s1.as_slice(), '?') {
        Some(i) => (i, Some(subrange_to_string(s1.as_slice(), i + 1, end1))),
        None => (end1, None),
    };
    proof {
        lemma_first_index_from(cs@, '#', 0);
        if end1 == n {
            assert(cs@.subrange(0, n as int) =~= cs@);
        }
    }
    let path = subrange_to_string(s1.as_slice(), 0, end2);
    proof {
        assert(s1@.subrange(0, end2 as int) =~= cs@.subrange(0, end2 as int));
        if end2 == end1 {
            assert(s1@.subrange(0, end1 as int) =~= s1@);
        }
    }
    Ok(PathAndQuery { path, query, fragment })
}
/// One `name=value` pair of a query text, after a `&` unless it belongs to the first entry.
pub open spec fn query_item_text(idx: int, name: Seq<char>, x: Seq<char>) -> Seq<char> {
    (if idx > 0 { seq!['&'] } else { Seq::<char>::empty() }) + name + seq!['='] + x
}

/// The pairs of one name with a list of values.
pub open spec fn query_list_text(idx: int, name: Seq<char>, xs: Seq<Seq<char>>) -> Seq<char>
    decreases xs.len(),
{
    if xs.len() == 0 {
        Seq::empty()
    } else {
        query_list_text(idx, name, xs.drop_last()) + query_item_text(idx, name, xs.last())
    }
}

/// The pairs of the entry at `idx`.
pub open spec fn query_entry_text(idx: int, e: (Seq<char>, QueryValueView)) -> Seq<char> {
    match e.1 {
        QueryValueView::One(x) => query_item_text(idx, e.0, x),
        QueryValueView::List(xs) => query_list_text(idx, e.0, xs),
    }
}

/// The text of a query map: its entries in order, as `name=value` pairs.
pub open spec fn query_map_text(m: Seq<(Seq<char>, QueryValueView)>) -> Seq<char>
    decreases m.len(),
{
    if m.len() == 0 {
        Seq::empty()
    } else {
        query_map_text(m.drop_last()) + query_entry_text(m.len() - 1, m.last())
    }
}

fn push_query_item(out: &mut String, idx: usize, name: &str, x: &str)
    ensures
        final(out)@ == old(out)@ + query_item_text(idx as int, name@, x@),
{
    if idx > 0 {
        string_push(out, '&');
    }
    push_str(out, name);
    string_push(out, '=');
    push_str(out, x);
    assert(out@ =~= old(out)@ + query_item_text(idx as int, name@, x@));
}

impl QueryMap {
    /// The query text: `name=value` pairs joined by `&`; the values of a list each get a pair.
    pub fn to_string(&self) -> (r: String)
        requires
            self.wf(),
        ensures
            r@ == query_map_text(self@),
    {
        let entries = self.0.iter();
        let mut out = String::new();
        let mut j: usize = 0;
        while j < entries.len()
            invariant
                self.wf(),
                j <= entries@.len(),
                entries@.len() == self@.len(),
                forall|x: int| 0 <= x < entries@.len() ==> (*(#[trigger] entries@[x]).0)@ == self@[x].0 && (*entries@[x].1)@ == self@[x].1,
                out@ == query_map_text(self@.take(j as int)),
            decreases entries@.len() - j,
        {
            let name = entries[j].0.as_str();
            let ghost before = out@;
            assert(self@.take(j + 1).drop_last() =~= self@.take(j as int));
            match entries[j].1 {
                QueryValue::One(x) => {
                    push_query_item(&mut out, j, name, x.as_str());
                },
                QueryValue::List(list) => {
                    let mut k: usize = 0;
                    while k < list.len()
                        invariant
                            k <= list@.len(),
                            out@ == before + query_list_text(j as int, name@, string_views(list@).take(k as int)),
                        decreases list@.len() - k,
                    {
                        assert(string_views(list@).take(k + 1).drop_last() =~= string_views(list@).take(k as int));
                        push_query_item(&mut out, j, name, list[k].as_str());
                        k = k + 1;
                    }
                    assert(string_views(list@).take(list@.len() as int) =~= string_views(list@));
                },
            }
            j = j + 1;
        }
        assert(self@.take(entries@.len() as int) =~= self@);
        out
    }

    /// Wraps an ordered map of query values.
    pub fn new(map: OrderedMap<String, QueryValue>) -> (r: Self)
        requires
            map.wf(),
        ensures
            r.wf(),
            r@ == Seq::new(map.key_seq().len(), |i: int| (map.key_seq()[i]@, map.value_seq()[i]@)),
    {
        QueryMap(map)
    }

    /// Well-formedness of the underlying map.
    pub closed spec fn wf(&self) -> bool {
        self.0.wf()
    }

    /// Number of names.
    pub fn len(&self) -> (r: usize)
        requires
            self.wf(),
        ensures
            r == self@.len(),
    {
        self.0.len()
    }

    /// Whether there is no name.
    pub fn is_empty(&self) -> (r: bool)
        requires
            self.wf(),
        ensures
            r == (self@.len() == 0),
    {
        self.0.is_empty()
    }

    fn find(&self, key: &str) -> (r: Option<usize>)
        requires
            self.wf(),
        ensures
            match r {
                Some(j) => entry_index(self@, key@, 0) == Some(j as int) && j < self@.len(),
                None => entry_index(self@, key@, 0) is None,
            },
    {
        let entries = self.0.iter();
        proof {
            lemma_entry_index(self@, key@, 0);
        }
        let mut j: usize = 0;
        while j < entries.len()
            invariant
                self.wf(),
                j <= entries@.len(),
                entries@.len() == self@.len(),
                forall|x: int| 0 <= x < entries@.len() ==> (*(#[trigger] entries@[x]).0)@ == self@[x].0,
                forall|x: int| 0 <= x < j ==> self@[x].0 != key@,
            decreases entries@.len() - j,
        {
            if str_eq(entries[j].0.as_str(), key) {
                assert(self@[j as int].0 == key@);
                proof {
                    lemma_entry_index(self@, key@, 0);
                }
                return Some(j);
            }
            j = j + 1;
        }
        None
    }

    /// The value of a name: its only value, or the first of its list.
    pub open spec fn spec_get(&self, key: Seq<char>) -> Option<Seq<char>> {
        match entry_index(self@, key, 0) {
            Some(j) => match self@[j].1 {
                QueryValueView::One(s) => Some(s),
                QueryValueView::List(l) => if l.len() > 0 { Some(l[0]) } else { None },
            },
            None => None,
        }
    }

    /// Returns the value of a name, the first one if it has several.
    pub fn get(&self, key: &str) -> (r: Option<&str>)
        requires
            self.wf(),
        ensures
            match r {
                Some(s) => self.spec_get(key@) == Some(s@),
                None => self.spec_get(key@) is None,
            },
    {
        match self.find(key) {
            None => None,
            Some(j) => {
                let entries = self.0.iter();
                assert(entries@[j as int].1@ == self@[j as int].1);
                match entries[j].1 {
                    QueryValue::One(s) => Some(s.as_str()),
                    QueryValue::List(list) => {
                        if list.len() > 0 {
                            Some(list[0].as_str())
                        } else {
                            None
                        }
                    },
                }
            },
        }
    }

    /// All values of a name.
    pub open spec fn spec_get_all(&self, key: Seq<char>) -> Seq<Seq<char>> {
        match entry_index(self@, key, 0) {
            Some(j) => match self@[j].1 {
                QueryValueView::One(s) => seq![s],
                QueryValueView::List(l) => l,
            },
            None => Seq::empty(),
        }
    }

    /// Returns all the values of a name, in order.
    pub fn get_all(&self, key: &str) -> (r: Vec<&str>)
        requires
            self.wf(),
        ensures
            r@.map_values(|s: &str| s@) == self.spec_get_all(key@),
    {
        let mut out: Vec<&str> = Vec::new();
        match self.find(key) {
            None => {
                assert(out@.map_values(|s: &str| s@) =~= Seq::<Seq<char>>::empty());
                out
            },
            Some(j) => {
                let entries = self.0.iter();
                assert(entries@[j as int].1@ == self@[j as int].1);
                match entries[j].1 {
                    QueryValue::One(s) => {
                        out.push(s.as_str());
                        assert(out@.map_values(|s: &str| s@) =~= seq![s@]);
                        out
                    },
                    QueryValue::List(list) => {
                        let mut i: usize = 0;
                        assert(out@.map_values(|s: &str| s@) =~= string_views(list@.take(0)));
                        while i < list.len()
                            invariant
                                i <= list@.len(),
                                out@.map_values(|s: &str| s@) == string_views(list@.take(i as int)),
                            decreases list@.len() - i,
                        {
                            let x = list[i].as_str();
                            proof {
                                lemma_str_views_push(out@, x);
                                lemma_string_views_take(list@, i as int);
                            }
                            out.push(x);
                            i = i + 1;
                        }
                        assert(list@.take(list@.len() as int) =~= list@);
                        out
                    },
                }
            },
        }
    }

    /// Whether the name is present.
    pub fn contains(&self, key: &str) -> (r: bool)
        requires
            self.wf(),
        ensures
            r == entry_index(self@, key@, 0) is Some,
    {
        self.find(key).is_some()
    }
}

/// Whether a text holds no `c`.
pub open spec fn lacks(s: Seq<char>, c: char) -> bool {
    forall|i: int| 0 <= i < s.len() ==> s[i] != c
}

/// Whether a path and query can be written and read back: the path starts with `/` and holds
/// no `?` and no `#`, and the query holds no `#`.
pub open spec fn path_query_writable(p: PathAndQueryView) -> bool {
    &&& p.path.len() > 0 && p.path[0] == '/'
    &&& lacks(p.path, '?') && lacks(p.path, '#')
    &&& (p.query matches Some(q) ==> lacks(q, '#'))
}

/// Reading the text of a path and query gives it back, for a path that starts with `/` and
/// holds no `?` or `#` and a query without `#`.
pub proof fn law_path_query_round_trip(p: PathAndQueryView)
    requires
        path_query_writable(p),
    ensures
        spec_parse_path_query(path_query_display(p)) == Ok::<PathAndQueryView, InvalidUriView>(p),
{
    let qpart = match p.query {
        Some(q) => seq!['?'] + q,
        None => Seq::<char>::empty(),
    };
    let fpart = match p.fragment {
        Some(f) => seq!['#'] + f,
        None => Seq::<char>::empty(),
    };
    let s1 = p.path + qpart;
    let s = s1 + fpart;
    assert(path_query_display(p) == s);
    assert(s[0] == '/');
    assert(lacks(s1, '#')) by {
        assert forall|i: int| 0 <= i < s1.len() implies s1[i] != '#' by {
            if i >= p.path.len() {
                let q = p.query.unwrap();
                if i > p.path.len() {
                    assert(s1[i] == q[i - p.path.len() - 1]);
                }
            }
        }
    }
    match p.fragment {
        Some(f) => {
            assert(s[s1.len() as int] == '#');
            assert forall|j: int| 0 <= j < s1.len() implies s[j] != '#' by {
                assert(s[j] == s1[j]);
            }
            lemma_first_index_is(s, '#', s1.len() as int);
            assert(s.subrange(0, s1.len() as int) =~= s1);
            assert(s.subrange(s1.len() as int + 1, s.len() as int) =~= f);
        },
        None => {
            assert(s =~= s1);
            lemma_first_index_none(s, '#');
        },
    }
    match p.query {
        Some(q) => {
            assert(s1[p.path.len() as int] == '?');
            lemma_first_index_is(s1, '?', p.path.len() as int);
            assert(s1.subrange(0, p.path.len() as int) =~= p.path);
            assert(s1.subrange(p.path.len() as int + 1, s1.len() as int) =~= q);
        },
        None => {
            assert(s1 =~= p.path);
            lemma_first_index_none(s1, '?');
        },
    }
}

/// The names of a sequence of pairs, each once, in order of first appearance.
pub open spec fn first_names(pairs: Seq<(Seq<char>, Seq<char>)>) -> Seq<Seq<char>>
    decreases pairs.len(),
{
    if pairs.len() == 0 {
        Seq::empty()
    } else {
        let prev = first_names(pairs.drop_last());
        if prev.contains(pairs.last().0) {
            prev
        } else {
            prev.push(pairs.last().0)
        }
    }
}

proof fn lemma_query_map_names(pairs: Seq<(Seq<char>, Seq<char>)>)
    ensures
        query_map_entries(pairs).len() == first_names(pairs).len(),
        forall|i: int| 0 <= i < first_names(pairs).len() ==> #[trigger] query_map_entries(pairs)[i].0 == first_names(pairs)[i],
    decreases pairs.len(),
{
    if pairs.len() > 0 {
        let prev = pairs.drop_last();
        lemma_query_map_names(prev);
        let m = query_map_entries(prev);
        let names = first_names(prev);
        let (k2, v) = pairs.last();
        lemma_entry_index(m, k2, 0);
        match entry_index(m, k2, 0) {
            Some(j) => {
                assert(names[j] == k2);
                assert(names.contains(k2));
            },
            None => {
                if names.contains(k2) {
                    let x = choose|x: int| 0 <= x < names.len() && names[x] == k2;
                    assert(m[x].0 == k2);
                }
            },
        }
    }
}

/// Lookups in the query map of a sequence of pairs: a name is present exactly when some pair has
/// it, its value is the value of the first pair with that name, and the map holds the names of
/// the pairs once each, in order of first appearance.
pub proof fn law_query_map_lookups(m: QueryMap, pairs: Seq<(Seq<char>, Seq<char>)>, k: Seq<char>)
    requires
        m@ == query_map_entries(pairs),
    ensures
        (entry_index(m@, k, 0) is Some) == (values_named(pairs, k).len() > 0),
        m.spec_get(k) == (if values_named(pairs, k).len() > 0 {
            Some(values_named(pairs, k)[0])
        } else {
            None
        }),
        m@.len() == first_names(pairs).len(),
        forall|i: int| 0 <= i < m@.len() ==> #[trigger] m@[i].0 == first_names(pairs)[i],
{
    law_query_map_collects_values(pairs, k);
    lemma_query_map_names(pairs);
}

} // verus!
