//! The page cache index: a name-to-state map recording, for every page
//! name ever fetched, whether its content is cached on local disk (`File`)
//! or a fetch attempt found nothing (`Missing`).
//!
//! The index is persisted as plain text, one `<name> <state_char>` record
//! per line; lines not of that shape are ignored on load.
use vstd::prelude::*;
use base64::Engine;
use base64::prelude::BASE64_STANDARD;
use crate::table::{map_of, distinct_keys, lemma_map_of_domain, lemma_map_of_value};
use crate::text::{find_str, find_sub, found_at, lemma_find_sub_characterization,
    match_at, str_eq};

verus! {

/// The standard base64 encoding of a page name's bytes, as text.
pub uninterp spec fn base64_of(name: Seq<char>) -> Seq<char>;

/// Relies on base64's `BASE64_STANDARD.encode_string`: the encoding
/// depends on the input alone, and is decodable, hence injective.
#[verifier::external_body]
fn name_to_base64(name: &str) -> (r: String)
    ensures
        r@ == base64_of(name@),
        forall|other: Seq<char>| base64_of(other) == r@ ==> other == name@,
{
    let mut out = String::new();
    BASE64_STANDARD.encode_string(name, &mut out);
    out
}

/// The cache file path of a page name: a fixed directory and stem, the
/// base64 encoding of the name, and a fixed extension.
pub open spec fn spec_local_path(name: Seq<char>) -> Seq<char> {
    "db/pages/page"@ + base64_of(name) + ".html"@
}

/// The path under which a page's content is cached locally. Distinct
/// names never collide: the name's encoding is reversible.
pub fn get_local_path(name: &str) -> (r: String)
    ensures
        r@ == spec_local_path(name@),
        forall|other: Seq<char>| spec_local_path(other) == r@ ==> other == name@,
{
    let enc = name_to_base64(name);
    let mut out = String::new();
    out.append("db/pages/page");
    out.append(enc.as_str());
    out.append(".html");
    proof {
        assert(out@ =~= spec_local_path(name@));
        assert forall|other: Seq<char>| spec_local_path(other) == out@ implies other
            == name@ by {
            let p = "db/pages/page"@;
            let sfx = ".html"@;
            let a = base64_of(other);
            let b = base64_of(name@);
            assert((p + a + sfx).len() == (p + b + sfx).len());
            assert(a.len() == b.len());
            assert forall|k: int| 0 <= k < a.len() implies a[k] == b[k] by {
                assert((p + a + sfx)[p.len() + k] == a[k]);
                assert((p + b + sfx)[p.len() + k] == b[k]);
            }
            assert(a =~= b);
        }
    }
    out
}

/// The cache state of one page name.
#[derive(Copy, Clone, PartialEq, Eq, Structural, Debug)]
pub enum PageState {
    File,
    Missing,
}

/// What a load of a page must do next, given the cache index alone.
#[derive(Copy, Clone, PartialEq, Eq, Structural, Debug)]
pub enum LoadPlan {
    Absent,
    ReadLocal,
    FetchRemote,
}

/// The in-memory cache index: a list of (name, state) records with
/// pairwise distinct names.
pub struct PageStorage {
    pub entries: Vec<(String, PageState)>,
}

/// The single-character tag of a state in the persisted format.
pub open spec fn spec_state_char(st: PageState) -> Seq<char> {
    match st {
        PageState::File => seq!['f'],
        PageState::Missing => seq!['m'],
    }
}

/// The state named by a record's state token: exactly the one character
/// `f` or `m`. Any other token, longer text included, names none.
pub open spec fn spec_parse_state(tok: Seq<char>) -> Option<PageState> {
    if tok.len() == 1 && tok[0] == 'f' {
        Some(PageState::File)
    } else if tok.len() == 1 && tok[0] == 'm' {
        Some(PageState::Missing)
    } else {
        None
    }
}

/// The record held by one line of the shape `<name> <state_char>`: the
/// text before the first space is the name, and everything after that
/// space must be exactly one state character. Any other line holds no
/// record and is ignored.
pub open spec fn spec_parse_line(line: Seq<char>) -> Option<(Seq<char>, PageState)> {
    match find_sub(line, seq![' ']) {
        Option::None => None,
        Option::Some(i) => {
            if 0 <= i < line.len() {
                let name = line.take(i);
                let tok = line.skip(i + 1);
                match spec_parse_state(tok) {
                    Option::None => None,
                    Option::Some(st) => Some((name, st)),
                }
            } else {
                None
            }
        },
    }
}

/// The map after applying a config text to `m`: each line's record is
/// merged in order, later records overwriting earlier ones.
pub open spec fn spec_apply(m: Map<Seq<char>, PageState>, c: Seq<char>) -> Map<Seq<char>, PageState>
    decreases c.len(),
{
    if c.len() == 0 {
        m
    } else {
        let split = find_sub(c, seq!['\n']);
        let line = match split {
            Option::None => c,
            Option::Some(i) => {
                if 0 <= i < c.len() {
                    c.take(i)
                } else {
                    c
                }
            },
        };
        let rest = match split {
            Option::None => Seq::<char>::empty(),
            Option::Some(i) => {
                if 0 <= i < c.len() {
                    c.skip(i + 1)
                } else {
                    Seq::<char>::empty()
                }
            },
        };
        let m1 = match spec_parse_line(line) {
            Option::None => m,
            Option::Some(r) => m.insert(r.0, r.1),
        };
        spec_apply(m1, rest)
    }
}

/// The persisted text of a record list: one `<name> <state_char>` line,
/// newline-terminated, per record, in list order.
pub open spec fn spec_config_text(rows: Seq<(Seq<char>, PageState)>) -> Seq<char>
    decreases rows.len(),
{
    if rows.len() == 0 {
        Seq::<char>::empty()
    } else {
        rows[0].0 + seq![' '] + spec_state_char(rows[0].1) + seq!['\n'] + spec_config_text(
            rows.skip(1),
        )
    }
}

/// A name the persisted line format carries faithfully: no space and no
/// newline. Every name `apply_config` itself ever records is of this
/// shape, since a parsed name ends at the first space of its line.
pub open spec fn clean_name(n: Seq<char>) -> bool {
    forall|k: int| 0 <= k < n.len() ==> n[k] != ' ' && n[k] != '\n'
}

/// Folding a record list into a map, first record first.
pub open spec fn spec_insert_rows(
    m: Map<Seq<char>, PageState>,
    rows: Seq<(Seq<char>, PageState)>,
) -> Map<Seq<char>, PageState>
    decreases rows.len(),
{
    if rows.len() == 0 {
        m
    } else {
        spec_insert_rows(m.insert(rows[0].0, rows[0].1), rows.skip(1))
    }
}

/// Parsing a generated config applies exactly its records: on the
/// persisted text of clean-named records, `spec_apply` folds those
/// records back into the map, in order.
pub proof fn lemma_apply_generated(
    m: Map<Seq<char>, PageState>,
    rows: Seq<(Seq<char>, PageState)>,
)
    requires
        forall|i: int| 0 <= i < rows.len() ==> clean_name((#[trigger] rows[i]).0),
    ensures
        spec_apply(m, spec_config_text(rows)) == spec_insert_rows(m, rows),
    decreases rows.len(),
{
    if rows.len() > 0 {
        let n = rows[0].0;
        let st = spec_state_char(rows[0].1);
        let tail = spec_config_text(rows.skip(1));
        let text = spec_config_text(rows);
        assert(clean_name(n));
        if rows[0].1 is File {
            assert(st =~= seq!['f']);
        } else {
            assert(st =~= seq!['m']);
        }
        assert(st.len() == 1 && st[0] != ' ' && st[0] != '\n');
        let p = n.len() as int + 2;
        let pre3 = n + seq![' '] + st;
        assert(pre3.len() == n.len() + 2);
        assert(text == pre3 + seq!['\n'] + tail);
        assert(text.len() == n.len() + 3 + tail.len());
        assert(text[p] == '\n');
        assert(match_at(text, seq!['\n'], p)) by {
            assert(text[p + 0] == seq!['\n'][0]);
        }
        assert forall|j: int| 0 <= j < p implies !match_at(text, seq!['\n'], j) by {
            if match_at(text, seq!['\n'], j) {
                assert(text[j + 0] == seq!['\n'][0]);
                if j < n.len() {
                    assert(text[j] == n[j]);
                } else if j == n.len() {
                    assert(text[j] == ' ');
                } else {
                    assert(text[j] == st[0]);
                }
            }
        }
        assert(found_at(text, seq!['\n'], p));
        lemma_find_sub_characterization(text, seq!['\n']);
        assert(find_sub(text, seq!['\n']) == Some(p));
        let line = text.take(p);
        assert(line =~= pre3);
        assert(text.skip(p + 1) =~= tail);
        // the line parses back to the record
        let q = n.len() as int;
        assert(line[q] == ' ');
        assert(match_at(line, seq![' '], q)) by {
            assert(line[q + 0] == seq![' '][0]);
        }
        assert forall|j: int| 0 <= j < q implies !match_at(line, seq![' '], j) by {
            if match_at(line, seq![' '], j) {
                assert(line[j + 0] == seq![' '][0]);
                assert(line[j] == n[j]);
            }
        }
        assert(found_at(line, seq![' '], q));
        lemma_find_sub_characterization(line, seq![' ']);
        assert(find_sub(line, seq![' ']) == Some(q));
        assert(line.take(q) =~= n);
        assert(line.skip(q + 1) =~= st);
        assert(spec_parse_state(st) == Some(rows[0].1));
        assert(spec_parse_line(line) == Some((n, rows[0].1)));
        assert(spec_apply(m, text) == spec_apply(m.insert(n, rows[0].1), tail));
        assert forall|k: int| 0 <= k < rows.skip(1).len() implies clean_name(
            (#[trigger] rows.skip(1)[k]).0,
        ) by {
            assert(rows.skip(1)[k] == rows[k + 1]);
        }
        lemma_apply_generated(m.insert(n, rows[0].1), rows.skip(1));
    }
}

/// If the map already holds every listed record, folding them in changes
/// nothing.
proof fn lemma_insert_rows_noop(
    m: Map<Seq<char>, PageState>,
    rows: Seq<(Seq<char>, PageState)>,
)
    requires
        forall|i: int|
            0 <= i < rows.len() ==> m.contains_key((#[trigger] rows[i]).0) && m[rows[i].0]
                == rows[i].1,
    ensures
        spec_insert_rows(m, rows) == m,
    decreases rows.len(),
{
    if rows.len() > 0 {
        assert(m.insert(rows[0].0, rows[0].1) =~= m);
        assert(forall|k: int| 0 <= k < rows.skip(1).len() ==> rows.skip(1)[k] == rows[k + 1]);
        lemma_insert_rows_noop(m, rows.skip(1));
    }
}

/// Law: applying a store's own generated config back onto it leaves its
/// state map unchanged, for stores whose record names are clean. Hence
/// `apply_config`, `generate_config`, `apply_config` again is idempotent:
/// the cache state after the second round trip equals the state after the
/// first. (A name holding a space or a newline is written as a line the
/// parser ignores, so such names are left out here.)
pub proof fn lemma_config_round_trip(s: PageStorage)
    requires
        s.wf(),
        forall|i: int| 0 <= i < s.row_view().len() ==> clean_name((#[trigger] s.row_view()[i]).0),
    ensures
        spec_apply(s.state_map(), spec_config_text(s.row_view())) == s.state_map(),
{
    lemma_apply_generated(s.state_map(), s.row_view());
    assert(distinct_keys(s.row_view())) by {
        assert(forall|i: int|
            0 <= i < s.entries@.len() ==> (#[trigger] s.row_view()[i]).0 == s.entries@[i].0@);
    }
    assert forall|i: int|
        0 <= i < s.row_view().len() implies s.state_map().contains_key(
        (#[trigger] s.row_view()[i]).0,
    ) && s.state_map()[s.row_view()[i].0] == s.row_view()[i].1 by {
        lemma_map_of_value(s.row_view(), i);
    }
    lemma_insert_rows_noop(s.state_map(), s.row_view());
}

impl PageStorage {
    /// The records, in insertion order.
    pub open spec fn rows(self) -> Seq<(String, PageState)> {
        self.entries@
    }

    /// The records as (name view, state) pairs.
    pub open spec fn row_view(self) -> Seq<(Seq<char>, PageState)> {
        self.entries@.map_values(|e: (String, PageState)| (e.0@, e.1))
    }

    /// The index as a map from name to state.
    pub open spec fn state_map(self) -> Map<Seq<char>, PageState> {
        map_of(self.row_view())
    }

    /// Record names are pairwise distinct.
    pub open spec fn wf(self) -> bool {
        forall|i: int, j: int|
            0 <= i < j < self.entries@.len() ==> (#[trigger] self.entries@[i]).0@ != (
            #[trigger] self.entries@[j]).0@
    }

    /// A row and the state map agree.
    proof fn lemma_row_map(self, i: int)
        requires
            self.wf(),
            0 <= i < self.rows().len(),
        ensures
            self.state_map().contains_key(self.rows()[i].0@),
            self.state_map()[self.rows()[i].0@] == self.rows()[i].1,
    {
        assert(distinct_keys(self.row_view()));
        lemma_map_of_value(self.row_view(), i);
    }

    /// An empty index.
    pub fn new() -> (s: Self)
        ensures
            s.wf(),
            s.rows().len() == 0,
            s.state_map() == Map::<Seq<char>, PageState>::empty(),
    {
        let s = Self { entries: Vec::new() };
        proof {
            assert(s.row_view() =~= Seq::<(Seq<char>, PageState)>::empty());
        }
        s
    }

    /// Find the row holding `name`, if any.
    fn find_row(&self, name: &str) -> (r: Option<usize>)
        requires
            self.wf(),
        ensures
            r matches Some(i) ==> i < self.rows().len() && self.rows()[i as int].0@ == name@
                && self.state_map().contains_key(name@) && self.state_map()[name@]
                == self.rows()[i as int].1,
            r is None ==> !self.state_map().contains_key(name@),
    {
        let n = self.entries.len();
        let mut i: usize = 0;
        while i < n
            invariant
                self.wf(),
                i <= n,
                n == self.rows().len(),
                forall|j: int| 0 <= j < i ==> (#[trigger] self.rows()[j]).0@ != name@,
            decreases n - i,
        {
            if str_eq(self.entries[i].0.as_str(), name) {
                proof {
                    self.lemma_row_map(i as int);
                }
                return Some(i);
            }
            i += 1;
        }
        proof {
            lemma_map_of_domain(self.row_view(), name@);
        }
        None
    }

    /// The recorded state of a name, if any.
    pub fn get_state(&self, name: &str) -> (r: Option<PageState>)
        requires
            self.wf(),
        ensures
            self.state_map().contains_key(name@) ==> r == Some(self.state_map()[name@]),
            !self.state_map().contains_key(name@) ==> r is None,
    {
        match self.find_row(name) {
            Some(i) => Some(self.entries[i].1),
            None => None,
        }
    }

    /// Updating a row's state updates its entry in the map.
    proof fn lemma_map_of_update(
        s: Seq<(Seq<char>, PageState)>,
        i: int,
        k: Seq<char>,
        v: PageState,
    )
        requires
            distinct_keys(s),
            0 <= i < s.len(),
            s[i].0 == k,
        ensures
            map_of(s.update(i, (k, v))) == map_of(s).insert(k, v),
        decreases s.len(),
    {
        let s2 = s.update(i, (k, v));
        if i == s.len() - 1 {
            assert(s2.drop_last() =~= s.drop_last());
            assert(s2.last() == (k, v));
            assert(map_of(s) == map_of(s.drop_last()).insert(k, s.last().1));
            assert(map_of(s.drop_last()).insert(k, s.last().1).insert(k, v) =~= map_of(
                s.drop_last(),
            ).insert(k, v));
        } else {
            assert(s2.last() == s.last());
            assert(s2.drop_last() =~= s.drop_last().update(i, (k, v)));
            assert(distinct_keys(s.drop_last())) by {
                assert(forall|a: int|
                    0 <= a < s.drop_last().len() ==> (#[trigger] s.drop_last()[a]).0 == s[a].0);
            }
            assert(s.drop_last()[i] == s[i]);
            Self::lemma_map_of_update(s.drop_last(), i, k, v);
            assert(s.last().0 != k);
            assert(map_of(s.drop_last()).insert(k, v).insert(s.last().0, s.last().1) =~= map_of(
                s.drop_last(),
            ).insert(s.last().0, s.last().1).insert(k, v));
        }
    }

    /// Appending a fresh row inserts its pair into the map.
    proof fn lemma_map_of_push(s: Seq<(Seq<char>, PageState)>, k: Seq<char>, v: PageState)
        ensures
            map_of(s.push((k, v))) == map_of(s).insert(k, v),
    {
        assert(s.push((k, v)).drop_last() =~= s);
        assert(s.push((k, v)).last() == (k, v));
    }

    /// Set the state of a name, overwriting any earlier record.
    pub fn set_state(&mut self, name: &str, st: PageState)
        requires
            old(self).wf(),
        ensures
            final(self).wf(),
            final(self).state_map() == old(self).state_map().insert(name@, st),
    {
        let ghost pre = *self;
        match self.find_row(name) {
            Some(i) => {
                let row_name = self.entries[i].0.clone();
                self.entries[i] = (row_name, st);
                proof {
                    assert(self.entries@ == pre.entries@.update(i as int, self.entries@[i as int]));
                    assert(self.entries@[i as int].0@ == name@);
                    assert(self.row_view() =~= pre.row_view().update(i as int, (name@, st))) by {
                        assert(forall|j: int|
                            0 <= j < self.entries@.len() && j != i ==> self.entries@[j]
                                == pre.entries@[j]);
                    }
                    assert(distinct_keys(pre.row_view()));
                    Self::lemma_map_of_update(pre.row_view(), i as int, name@, st);
                    assert forall|a: int, b: int|
                        0 <= a < b < self.entries@.len() implies (#[trigger] self.entries@[a]).0@
                        != (#[trigger] self.entries@[b]).0@ by {
                        assert(self.entries@[a].0@ == pre.entries@[a].0@);
                        assert(self.entries@[b].0@ == pre.entries@[b].0@);
                    }
                }
            },
            None => {
                self.entries.push((name.to_owned(), st));
                proof {
                    assert(self.row_view() =~= pre.row_view().push((name@, st)));
                    Self::lemma_map_of_push(pre.row_view(), name@, st);
                    lemma_map_of_domain(pre.row_view(), name@);
                    assert forall|a: int, b: int|
                        0 <= a < b < self.entries@.len() implies (#[trigger] self.entries@[a]).0@
                        != (#[trigger] self.entries@[b]).0@ by {
                        if b == self.entries@.len() - 1 {
                            assert(pre.row_view()[a].0 == self.entries@[a].0@);
                        }
                    }
                }
            },
        }
    }

    /// Merge a persisted config text into the index: one record per line,
    /// later records overwriting earlier ones, malformed lines skipped.
    pub fn apply_config(&mut self, config: &str)
        requires
            old(self).wf(),
        ensures
            final(self).wf(),
            final(self).state_map() == spec_apply(old(self).state_map(), config@),
    {
        let ghost m0 = old(self).state_map();
        let mut rest: &str = config;
        loop
            invariant
                self.wf(),
                spec_apply(m0, config@) == spec_apply(self.state_map(), rest@),
            ensures
                rest@.len() == 0,
            decreases rest@.len(),
        {
            proof {
                reveal_strlit("\n");
                reveal_strlit(" ");
                reveal_strlit("");
                assert("\n"@ =~= seq!['\n']);
                assert(" "@ =~= seq![' ']);
            }
            let rest_len = rest.unicode_len();
            if rest_len == 0 {
                break ;
            }
            let ghost pre_rest = rest@;
            let ghost pre_map = self.state_map();
            let line: &str;
            let next: &str;
            match find_str(rest, "\n") {
                Some(i) => {
                    line = rest.substring_char(0, i);
                    next = rest.substring_char(i + 1, rest_len);
                },
                None => {
                    line = rest;
                    next = "";
                },
            }
            proof {
                assert(line@ =~= (match find_sub(pre_rest, seq!['\n']) {
                    Option::None => pre_rest,
                    Option::Some(i) => if 0 <= i < pre_rest.len() {
                        pre_rest.take(i)
                    } else {
                        pre_rest
                    },
                }));
                assert(next@ =~= (match find_sub(pre_rest, seq!['\n']) {
                    Option::None => Seq::<char>::empty(),
                    Option::Some(i) => if 0 <= i < pre_rest.len() {
                        pre_rest.skip(i + 1)
                    } else {
                        Seq::<char>::empty()
                    },
                }));
            }
            let line_len = line.unicode_len();
            match find_str(line, " ") {
                None => {
                    proof {
                        assert(spec_parse_line(line@) is None);
                    }
                },
                Some(i) => {
                    let name = line.substring_char(0, i);
                    let tok = line.substring_char(i + 1, line_len);
                    proof {
                        assert(name@ =~= line@.take(i as int));
                        assert(tok@ =~= line@.skip(i as int + 1));
                    }
                    if tok.unicode_len() == 1 {
                        let c = tok.get_char(0);
                        if c == 'f' {
                            self.set_state(name, PageState::File);
                            proof {
                                assert(spec_parse_line(line@) == Some((name@, PageState::File)));
                            }
                        } else if c == 'm' {
                            self.set_state(name, PageState::Missing);
                            proof {
                                assert(spec_parse_line(line@) == Some((name@, PageState::Missing)));
                            }
                        } else {
                            proof {
                                assert(spec_parse_line(line@) is None);
                            }
                        }
                    } else {
                        proof {
                            assert(spec_parse_line(line@) is None);
                        }
                    }
                },
            }
            proof {
                assert(spec_apply(pre_map, pre_rest) == spec_apply(self.state_map(), next@));
            }
            rest = next;
        }
        proof {
            assert(rest@.len() == 0);
            assert(spec_apply(self.state_map(), rest@) == self.state_map());
        }
    }

    /// Serialize the whole index back to the persisted line format, one
    /// record per line in insertion order, newline-terminated.
    pub fn generate_config(&self) -> (r: String)
        requires
            self.wf(),
        ensures
            r@ == spec_config_text(self.row_view()),
    {
        let mut out = String::new();
        let n = self.entries.len();
        let mut i: usize = 0;
        proof {
            assert(self.row_view().skip(0) =~= self.row_view());
        }
        while i < n
            invariant
                i <= n,
                n == self.rows().len(),
                out@ + spec_config_text(self.row_view().skip(i as int)) == spec_config_text(
                    self.row_view(),
                ),
            decreases n - i,
        {
            let ghost old_out = out@;
            out.append(self.entries[i].0.as_str());
            out.append(" ");
            match self.entries[i].1 {
                PageState::File => out.append("f"),
                PageState::Missing => out.append("m"),
            }
            out.append("\n");
            proof {
                reveal_strlit(" ");
                reveal_strlit("f");
                reveal_strlit("m");
                reveal_strlit("\n");
                assert(" "@ =~= seq![' ']);
                assert("f"@ =~= seq!['f']);
                assert("m"@ =~= seq!['m']);
                assert("\n"@ =~= seq!['\n']);
                let rv = self.row_view();
                assert(rv.skip(i as int)[0] == rv[i as int]);
                assert(rv[i as int] == (self.entries@[i as int].0@, self.entries@[i as int].1));
                assert(rv.skip(i as int).skip(1) =~= rv.skip(i as int + 1));
                assert(out@ =~= old_out + (rv[i as int].0 + seq![' '] + spec_state_char(
                    rv[i as int].1,
                ) + seq!['\n']));
                assert(spec_config_text(rv.skip(i as int)) == rv[i as int].0 + seq![' ']
                    + spec_state_char(rv[i as int].1) + seq!['\n'] + spec_config_text(
                    rv.skip(i as int + 1),
                ));
                assert(out@ + spec_config_text(rv.skip(i as int + 1)) =~= old_out
                    + spec_config_text(rv.skip(i as int)));
            }
            i += 1;
        }
        proof {
            assert(self.row_view().skip(n as int) =~= Seq::<(Seq<char>, PageState)>::empty());
            assert(out@ + spec_config_text(self.row_view().skip(n as int)) =~= out@);
        }
        out
    }

    /// Decide how to load a page from the index alone: a name recorded
    /// `Missing` is reported absent with no work; one recorded `File` is
    /// read from local disk (with a network fallback if that read fails);
    /// an unrecorded name goes straight to the network.
    pub fn load_page_plan(&self, name: &str) -> (r: LoadPlan)
        requires
            self.wf(),
        ensures
            r == LoadPlan::Absent <==> self.state_map().contains_key(name@)
                && self.state_map()[name@] == PageState::Missing,
            r == LoadPlan::ReadLocal <==> self.state_map().contains_key(name@)
                && self.state_map()[name@] == PageState::File,
            r == LoadPlan::FetchRemote <==> !self.state_map().contains_key(name@),
    {
        match self.get_state(name) {
            Some(PageState::Missing) => LoadPlan::Absent,
            Some(PageState::File) => LoadPlan::ReadLocal,
            None => LoadPlan::FetchRemote,
        }
    }

    /// Record the outcome of a network fetch: a failed fetch marks the
    /// name `Missing`; a fetched page marks it `File` only once its
    /// content was saved locally; a fetched page that could not be saved
    /// leaves the index unchanged.
    pub fn record_fetch(&mut self, name: &str, fetched: bool, saved: bool)
        requires
            old(self).wf(),
        ensures
            final(self).wf(),
            !fetched ==> final(self).state_map() == old(self).state_map().insert(
                name@,
                PageState::Missing,
            ),
            fetched && saved ==> final(self).state_map() == old(self).state_map().insert(
                name@,
                PageState::File,
            ),
            fetched && !saved ==> *final(self) == *old(self),
    {
        if !fetched {
            self.set_state(name, PageState::Missing);
        } else if saved {
            self.set_state(name, PageState::File);
        }
    }
}

} // verus!
