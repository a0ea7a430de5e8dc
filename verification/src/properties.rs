//! The property mutator: a pending set of mutations over one properties
//! file, applied at render time.
//!
//! A [`PropertiesMut`] holds the path of its source file and a mutation set:
//! a mapping from key to either a replacement value or a tombstone (remove).
//! The file's content is handed in as a plain string when rendering or
//! snapshotting, so the mutator always reflects the file's state at render
//! time; reading and writing the file itself stays with the caller.

use vstd::prelude::*;

use crate::parser::line_key;
use crate::parser::line_entry;
use crate::parser::parse_key;
use crate::parser::parse_line;
use crate::lines::line_ending;
use crate::lines::split_lines;
use crate::lines::split_lines_spec;

verus! {

/// A pending mutation set, in insertion order: each pair holds a key and
/// either a replacement value or `None` for a tombstone.
pub type Mutations = Seq<(Seq<char>, Option<Seq<char>>)>;

/// The position of the first pair with key `k` (`m.len()` if absent).
pub open spec fn m_find(m: Mutations, k: Seq<char>) -> nat
    decreases m.len(),
{
    if m.len() == 0 {
        0
    } else if m[0].0 == k {
        0
    } else {
        1 + m_find(m.drop_first(), k)
    }
}

/// Whether the mutation set holds a pair for key `k`.
pub open spec fn m_has(m: Mutations, k: Seq<char>) -> bool {
    m_find(m, k) < m.len()
}

/// The pending mutation for key `k`: a replacement value or a tombstone.
pub open spec fn m_value(m: Mutations, k: Seq<char>) -> Option<Seq<char>> {
    m[m_find(m, k) as int].1
}

/// The mutation set without its pair for key `k`.
pub open spec fn m_remove(m: Mutations, k: Seq<char>) -> Mutations {
    if m_has(m, k) {
        m.remove(m_find(m, k) as int)
    } else {
        m
    }
}

/// The mutation set after an upsert of key `k`: the existing pair is
/// replaced in place, a new key goes to the end.
pub open spec fn m_set(m: Mutations, k: Seq<char>, val: Option<Seq<char>>) -> Mutations {
    if m_has(m, k) {
        m.update(m_find(m, k) as int, (k, val))
    } else {
        m.push((k, val))
    }
}

/// Well-formedness of a mutation set: keys are unique, so it is a mapping.
pub open spec fn m_wf(m: Mutations) -> bool {
    forall|i: int, j: int| 0 <= i < j < m.len() ==> m[i].0 != m[j].0
}

/// `m_find` stays within bounds, marks a pair with key `k` when one exists,
/// and no earlier pair has that key.
pub proof fn lemma_m_find_bounds(m: Mutations, k: Seq<char>)
    ensures
        m_find(m, k) <= m.len(),
        m_find(m, k) < m.len() ==> m[m_find(m, k) as int].0 == k,
        forall|j: int| 0 <= j < m_find(m, k) ==> m[j].0 != k,
    decreases m.len(),
{
    if m.len() == 0 {
    } else if m[0].0 == k {
    } else {
        let rest = m.drop_first();
        lemma_m_find_bounds(rest, k);
        assert forall|j: int| 0 <= j < m_find(m, k) implies m[j].0 != k by {
            if j > 0 {
                assert(rest[j - 1].0 != k);
            }
        }
    }
}

/// `m_find` is the unique first position of key `k`.
pub proof fn lemma_m_find_is(m: Mutations, k: Seq<char>, i: int)
    requires
        0 <= i <= m.len(),
        forall|j: int| 0 <= j < i ==> m[j].0 != k,
        i < m.len() ==> m[i].0 == k,
    ensures
        m_find(m, k) == i,
    decreases m.len(),
{
    if i == 0 {
    } else {
        let rest = m.drop_first();
        assert(forall|j: int| 0 <= j < i - 1 ==> rest[j].0 != k);
        lemma_m_find_is(rest, k, i - 1);
    }
}

/// Finds the position of the first pending mutation for `key` in `v`.
fn find_in(v: &Vec<(String, Option<String>)>, key: &String) -> (r: Option<usize>)
    ensures
        match r {
            Some(i) => i == m_find(v.deep_view(), key@) && i < v.deep_view().len(),
            None => !m_has(v.deep_view(), key@),
        },
{
    let n = v.len();
    let mut i: usize = 0;
    while i < n
        invariant
            n == v.len(),
            0 <= i <= n,
            forall|j: int| 0 <= j < i ==> v.deep_view()[j].0 != key@,
        decreases n - i,
    {
        if v[i].0 == *key {
            proof {
                lemma_m_find_is(v.deep_view(), key@, i as int);
            }
            return Some(i);
        }
        i = i + 1;
    }
    proof {
        lemma_m_find_is(v.deep_view(), key@, n as int);
    }
    None
}

/// Copies a pending mutation set.
fn clone_mutations(v: &Vec<(String, Option<String>)>) -> (r: Vec<(String, Option<String>)>)
    ensures
        r.deep_view() == v.deep_view(),
{
    let mut r: Vec<(String, Option<String>)> = Vec::new();
    let n = v.len();
    let mut i: usize = 0;
    proof {
        assert(r.deep_view() =~= v.deep_view().take(0));
    }
    while i < n
        invariant
            n == v.len(),
            0 <= i <= n,
            r.deep_view() == v.deep_view().take(i as int),
        decreases n - i,
    {
        let ghost prev = r.deep_view();
        let value = match &v[i].1 {
            Some(s) => Some(s.clone()),
            None => None,
        };
        r.push((v[i].0.clone(), value));
        proof {
            assert(r.deep_view() =~= prev.push(v.deep_view()[i as int]));
            assert(r.deep_view() =~= v.deep_view().take(i as int + 1));
        }
        i = i + 1;
    }
    proof {
        assert(v.deep_view().take(n as int) =~= v.deep_view());
    }
    r
}

/// A key/value listing, in first-occurrence order: each pair holds a key and
/// its resolved value.
pub type Entries = Seq<(Seq<char>, Seq<char>)>;

/// The position of the first pair with key `k` (`es.len()` if absent).
pub open spec fn e_find(es: Entries, k: Seq<char>) -> nat
    decreases es.len(),
{
    if es.len() == 0 {
        0
    } else if es[0].0 == k {
        0
    } else {
        1 + e_find(es.drop_first(), k)
    }
}

/// The value listed for key `k`, if any.
pub open spec fn e_lookup(es: Entries, k: Seq<char>) -> Option<Seq<char>> {
    if e_find(es, k) < es.len() {
        Some(es[e_find(es, k) as int].1)
    } else {
        None
    }
}

/// The listing after an upsert of key `k`: an existing pair keeps its
/// position but takes the new value, a new key goes to the end.
pub open spec fn e_upsert(es: Entries, k: Seq<char>, v: Seq<char>) -> Entries {
    if e_find(es, k) < es.len() {
        es.update(e_find(es, k) as int, (k, v))
    } else {
        es.push((k, v))
    }
}

/// Well-formedness of a listing: keys are unique, so it is a mapping.
pub open spec fn e_wf(es: Entries) -> bool {
    forall|i: int, j: int| 0 <= i < j < es.len() ==> es[i].0 != es[j].0
}

/// `e_find` stays within bounds, marks a pair with key `k` when one exists,
/// and no earlier pair has that key.
pub proof fn lemma_e_find_bounds(es: Entries, k: Seq<char>)
    ensures
        e_find(es, k) <= es.len(),
        e_find(es, k) < es.len() ==> es[e_find(es, k) as int].0 == k,
        forall|j: int| 0 <= j < e_find(es, k) ==> es[j].0 != k,
    decreases es.len(),
{
    if es.len() == 0 {
    } else if es[0].0 == k {
    } else {
        let rest = es.drop_first();
        lemma_e_find_bounds(rest, k);
        assert forall|j: int| 0 <= j < e_find(es, k) implies es[j].0 != k by {
            if j > 0 {
                assert(rest[j - 1].0 != k);
            }
        }
    }
}

/// `e_find` is the unique first position of key `k`.
pub proof fn lemma_e_find_is(es: Entries, k: Seq<char>, i: int)
    requires
        0 <= i <= es.len(),
        forall|j: int| 0 <= j < i ==> es[j].0 != k,
        i < es.len() ==> es[i].0 == k,
    ensures
        e_find(es, k) == i,
    decreases es.len(),
{
    if i == 0 {
    } else {
        let rest = es.drop_first();
        assert(forall|j: int| 0 <= j < i - 1 ==> rest[j].0 != k);
        lemma_e_find_is(rest, k, i - 1);
    }
}

/// The key/value listing read from the given lines, top to bottom: each
/// entry line upserts its pair, so for duplicate keys the last occurrence
/// wins.
pub open spec fn snapshot_entries(lines: Seq<Seq<char>>) -> Entries
    decreases lines.len(),
{
    if lines.len() == 0 {
        seq![]
    } else {
        let prev = snapshot_entries(lines.drop_last());
        match line_entry(lines.last()) {
            Some(kv) => e_upsert(prev, kv.0, kv.1),
            None => prev,
        }
    }
}

/// One rewritten entry line: `key = value` followed by the line terminator.
pub open spec fn entry_text(k: Seq<char>, v: Seq<char>) -> Seq<char> {
    k + seq![' ', '=', ' '] + v + line_ending()
}

/// The text appended after the line scan: every replacement mutation that
/// matched no line becomes an entry line, in the order the mutation set
/// holds them; tombstones produce nothing.
pub open spec fn appended_text(m: Mutations) -> Seq<char>
    decreases m.len(),
{
    if m.len() == 0 {
        seq![]
    } else {
        (match m[0].1 {
            Some(v) => entry_text(m[0].0, v),
            None => seq![],
        }) + appended_text(m.drop_first())
    }
}

/// The rendered file content: each line whose key has a pending mutation is
/// replaced by a fresh entry line (or dropped, for a tombstone) and consumes
/// that mutation; every other line is copied verbatim, followed by the line
/// terminator; mutations left over at the end are appended.
pub open spec fn render_spec(lines: Seq<Seq<char>>, m: Mutations) -> Seq<char>
    decreases lines.len(),
{
    if lines.len() == 0 {
        appended_text(m)
    } else {
        let line = lines[0];
        match line_key(line) {
            Some(k) => if m_has(m, k) {
                (match m_value(m, k) {
                    Some(v) => entry_text(k, v),
                    None => seq![],
                }) + render_spec(lines.drop_first(), m_remove(m, k))
            } else {
                line + line_ending() + render_spec(lines.drop_first(), m)
            },
            None => line + line_ending() + render_spec(lines.drop_first(), m),
        }
    }
}

/// The key/value content of a properties file, with duplicate keys already
/// folded (the last occurrence of a key wins).
pub struct PropertyMap {
    pub entries: Vec<(String, String)>,
}

impl View for PropertyMap {
    type V = Entries;

    open spec fn view(&self) -> Entries {
        self.entries.deep_view()
    }
}

impl PropertyMap {
    /// Well-formedness: the listing is a mapping (keys unique).
    pub open spec fn wf(&self) -> bool {
        e_wf(self@)
    }

    /// An empty listing.
    pub fn new() -> (r: PropertyMap)
        ensures
            r.wf(),
            r@ == Seq::<(Seq<char>, Seq<char>)>::empty(),
    {
        let r = PropertyMap { entries: Vec::new() };
        proof {
            assert(r@ =~= Seq::<(Seq<char>, Seq<char>)>::empty());
        }
        r
    }

    /// The position of the pair for `key`, if there is one.
    fn find_entry(&self, key: &String) -> (r: Option<usize>)
        ensures
            match r {
                Some(i) => i == e_find(self@, key@) && i < self@.len(),
                None => e_find(self@, key@) >= self@.len(),
            },
    {
        let n = self.entries.len();
        let mut i: usize = 0;
        while i < n
            invariant
                n == self.entries.len(),
                0 <= i <= n,
                forall|j: int| 0 <= j < i ==> self@[j].0 != key@,
            decreases n - i,
        {
            if self.entries[i].0 == *key {
                proof {
                    lemma_e_find_is(self@, key@, i as int);
                }
                return Some(i);
            }
            i = i + 1;
        }
        proof {
            lemma_e_find_is(self@, key@, n as int);
        }
        None
    }

    /// The value listed for `key`, if any.
    pub fn get(&self, key: &str) -> (r: Option<String>)
        ensures
            r.deep_view() == e_lookup(self@, key@),
    {
        let key_string = key.to_owned();
        match self.find_entry(&key_string) {
            Some(i) => Some(self.entries[i].1.clone()),
            None => None,
        }
    }

    /// Whether the listing holds a pair for `key`.
    pub fn contains_key(&self, key: &str) -> (r: bool)
        ensures
            r == (e_lookup(self@, key@) is Some),
    {
        let key_string = key.to_owned();
        self.find_entry(&key_string).is_some()
    }

    /// The number of listed pairs.
    pub fn len(&self) -> (r: usize)
        ensures
            r == self@.len(),
    {
        self.entries.len()
    }

    /// Upserts one pair, keeping keys unique: the last write for a key wins.
    pub fn upsert(&mut self, key: String, value: String)
        requires
            old(self).wf(),
        ensures
            final(self).wf(),
            final(self)@ == e_upsert(old(self)@, key@, value@),
    {
        proof {
            lemma_e_find_bounds(old(self)@, key@);
        }
        match self.find_entry(&key) {
            Some(i) => {
                let ghost prev = self@;
                self.entries.remove(i);
                self.entries.insert(i, (key, value));
                proof {
                    assert(self@ =~= prev.update(i as int, (key@, value@)));
                    assert(e_wf(final(self)@));
                }
            },
            None => {
                let ghost prev = self@;
                self.entries.push((key, value));
                proof {
                    assert(self@ =~= prev.push((key@, value@)));
                    lemma_e_find_bounds(prev, key@);
                    assert(e_wf(final(self)@));
                }
            },
        }
    }
}

/// A pending batch of mutations over one properties file.
pub struct PropertiesMut {
    source: String,
    mutations: Vec<(String, Option<String>)>,
}

impl PropertiesMut {
    /// The pending mutation set, in insertion order.
    pub closed spec fn muts(&self) -> Mutations {
        self.mutations.deep_view()
    }

    /// The path of the source file this mutator was opened on.
    pub closed spec fn source_spec(&self) -> Seq<char> {
        self.source@
    }

    /// Well-formedness: the mutation set is a mapping (keys unique).
    pub open spec fn wf(&self) -> bool {
        m_wf(self.muts())
    }

    /// Creates a mutator for the file at `source`, with no pending
    /// mutations. The caller is responsible for having checked that the
    /// file exists.
    pub fn new(source: &str) -> (r: PropertiesMut)
        ensures
            r.wf(),
            r.muts() == Seq::<(Seq<char>, Option<Seq<char>>)>::empty(),
            r.source_spec() == source@,
    {
        let r = PropertiesMut { source: source.to_owned(), mutations: Vec::new() };
        proof {
            assert(r.muts() =~= Seq::<(Seq<char>, Option<Seq<char>>)>::empty());
        }
        r
    }

    /// The path of the source file.
    pub fn source(&self) -> (r: &str)
        ensures
            r@ == self.source_spec(),
    {
        self.source.as_str()
    }

    /// The position of the pending mutation for `key`, if there is one.
    fn find_mutation(&self, key: &String) -> (r: Option<usize>)
        ensures
            match r {
                Some(i) => i == m_find(self.muts(), key@) && i < self.muts().len(),
                None => !m_has(self.muts(), key@),
            },
    {
        find_in(&self.mutations, key)
    }

    /// Adds a mutation that gives `key` the new value `value`. The last
    /// write for a key wins: an earlier pending mutation for the same key is
    /// replaced.
    pub fn set(&mut self, key: &str, value: &str)
        requires
            old(self).wf(),
        ensures
            final(self).wf(),
            final(self).muts() == m_set(old(self).muts(), key@, Some(value@)),
            final(self).source_spec() == old(self).source_spec(),
    {
        let key_string = key.to_owned();
        let value_opt = Some(value.to_owned());
        self.upsert_mutation(key_string, value_opt);
    }

    /// Adds a mutation that will remove `key` from the rendered file. The
    /// last write for a key wins, as for `set`.
    pub fn remove(&mut self, key: &str)
        requires
            old(self).wf(),
        ensures
            final(self).wf(),
            final(self).muts() == m_set(old(self).muts(), key@, None),
            final(self).source_spec() == old(self).source_spec(),
    {
        let key_string = key.to_owned();
        self.upsert_mutation(key_string, None);
    }

    /// Upserts one pending mutation, keeping keys unique.
    fn upsert_mutation(&mut self, key: String, value: Option<String>)
        requires
            old(self).wf(),
        ensures
            final(self).wf(),
            final(self).muts() == m_set(old(self).muts(), key@, value.deep_view()),
            final(self).source_spec() == old(self).source_spec(),
    {
        proof {
            lemma_m_find_bounds(old(self).muts(), key@);
        }
        match self.find_mutation(&key) {
            Some(i) => {
                let ghost prev = self.muts();
                self.mutations.remove(i);
                self.mutations.insert(i, (key, value));
                proof {
                    assert(self.muts() =~= prev.update(i as int, (key@, value.deep_view())));
                    assert(m_wf(final(self).muts()));
                }
            },
            None => {
                let ghost prev = self.muts();
                self.mutations.push((key, value));
                proof {
                    assert(self.muts() =~= prev.push((key@, value.deep_view())));
                    lemma_m_find_bounds(prev, key@);
                    assert(m_wf(final(self).muts()));
                }
            },
        }
    }

    /// Tries to find the properties key on the given line. Returns the key,
    /// or `None` if the line carries none.
    pub fn get_key(&self, line: &str) -> (r: Option<String>)
        ensures
            r.deep_view() == line_key(line@),
    {
        parse_key(line)
    }

    /// Tries to find the properties key and value on the given line.
    /// Returns the pair, or `None` if the line carries none.
    pub fn get_key_values(&self, line: &str) -> (r: Option<(String, String)>)
        ensures
            r.deep_view() == line_entry(line@),
    {
        parse_line(line)
    }

    /// Reads all key/value pairs out of the given file content, top to
    /// bottom, folding duplicate keys so that the last occurrence wins.
    /// Pending mutations are ignored: this is the file as it stands.
    pub fn get_hashmap_content(&self, content: &str) -> (r: PropertyMap)
        ensures
            r.wf(),
            r@ == snapshot_entries(crate::lines::split_lines_spec(content@)),
    {
        let lines = split_lines(content);
        let ghost all = lines.deep_view();
        let mut r = PropertyMap::new();
        let n = lines.len();
        let mut i: usize = 0;
        proof {
            assert(all.take(0) =~= Seq::<Seq<char>>::empty());
        }
        while i < n
            invariant
                n == lines.len(),
                all == lines.deep_view(),
                0 <= i <= n,
                r.wf(),
                r@ == snapshot_entries(all.take(i as int)),
            decreases n - i,
    {
            let ghost prev = r@;
            match parse_line(lines[i].as_str()) {
                Some(kv) => {
                    r.upsert(kv.0, kv.1);
                },
                None => {},
            }
            proof {
                let upto = all.take(i as int + 1);
                assert(upto.drop_last() =~= all.take(i as int));
                assert(upto.last() == all[i as int]);
                assert(lines@[i as int]@ == all[i as int]);
            }
            i = i + 1;
        }
        proof {
            assert(all.take(n as int) =~= all);
        }
        r
    }

    /// Renders the file content with the pending mutations applied: lines
    /// whose key has a pending mutation are rewritten (or dropped), every
    /// other line is copied verbatim with the crate's line terminator, and
    /// mutations for keys the file never mentions are appended at the end.
    /// Each mutation is consumed by the first line it matches.
    pub fn get_mutated_content(&self, content: &str) -> (r: String)
        requires
            self.wf(),
        ensures
            r@ == render_spec(split_lines_spec(content@), self.muts()),
    {
        let lines = split_lines(content);
        let ghost all = lines.deep_view();
        let mut working = clone_mutations(&self.mutations);
        let mut out = String::new();
        let sep = " = ";
        let le = crate::lines::line_ending_str();
        proof {
            reveal_strlit(" = ");
            assert(sep@ =~= seq![' ', '=', ' ']);
            assert(all.skip(0) =~= all);
        }
        let n = lines.len();
        let mut i: usize = 0;
        while i < n
            invariant
                n == lines.len(),
                all == lines.deep_view(),
                0 <= i <= n,
                sep@ == seq![' ', '=', ' '],
                le@ == line_ending(),
                render_spec(all, self.muts()) == out@ + render_spec(
                    all.skip(i as int),
                    working.deep_view(),
                ),
            decreases n - i,
        {
            let ghost w = working.deep_view();
            let ghost rest = all.skip(i as int);
            proof {
                assert(rest[0] == all[i as int]);
                assert(rest.drop_first() =~= all.skip(i as int + 1));
                assert(lines@[i as int]@ == all[i as int]);
            }
            let ghost prev_out = out@;
            let line = &lines[i];
            let mut consumed = false;
            match parse_key(line.as_str()) {
                Some(key) => {
                    match find_in(&working, &key) {
                        Some(idx) => {
                            let pair = working.remove(idx);
                            proof {
                                assert(working.deep_view() =~= w.remove(idx as int));
                                assert(m_remove(w, key@) == w.remove(idx as int));
                                assert(pair.1.deep_view() == m_value(w, key@));
                            }
                            match pair.1 {
                                Some(value) => {
                                    out.append(key.as_str());
                                    out.append(sep);
                                    out.append(value.as_str());
                                    out.append(le);
                                    proof {
                                        assert(out@ =~= prev_out + entry_text(key@, value@));
                                    }
                                },
                                None => {},
                            }
                            consumed = true;
                        },
                        None => {},
                    }
                },
                None => {},
            }
            if !consumed {
                out.append(line.as_str());
                out.append(le);
                proof {
                    assert(out@ =~= prev_out + (all[i as int] + line_ending()));
                }
            }
            proof {
                assert(render_spec(all, self.muts()) == out@ + render_spec(
                    all.skip(i as int + 1),
                    working.deep_view(),
                ));
            }
            i = i + 1;
        }
        proof {
            assert(all.skip(n as int) =~= Seq::<Seq<char>>::empty());
        }
        let m = working.len();
        let mut j: usize = 0;
        proof {
            assert(working.deep_view().skip(0) =~= working.deep_view());
        }
        while j < m
            invariant
                m == working.len(),
                0 <= j <= m,
                sep@ == seq![' ', '=', ' '],
                le@ == line_ending(),
                render_spec(all, self.muts()) == out@ + appended_text(
                    working.deep_view().skip(j as int),
                ),
            decreases m - j,
        {
            let ghost w = working.deep_view();
            let ghost prev_out = out@;
            proof {
                assert(w.skip(j as int)[0] == w[j as int]);
                assert(w.skip(j as int).drop_first() =~= w.skip(j as int + 1));
            }
            match &working[j].1 {
                Some(value) => {
                    out.append(working[j].0.as_str());
                    out.append(sep);
                    out.append(value.as_str());
                    out.append(le);
                    proof {
                        assert(out@ =~= prev_out + entry_text(w[j as int].0, w[j as int].1->0));
                    }
                },
                None => {},
            }
            j = j + 1;
        }
        proof {
            assert(working.deep_view().skip(m as int) =~= Seq::<
                (Seq<char>, Option<Seq<char>>),
            >::empty());
        }
        out
    }
}

} // verus!
