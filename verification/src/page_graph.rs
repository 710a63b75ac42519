//! An append-only directed graph of pages with dense, stable identifiers.
//!
//! Every name ever seen (as a crawl target or as a link target) owns one
//! identifier, assigned monotonically and never reused. A slot of the page
//! array is `None` while the page is only referenced ("unknown") and is
//! filled exactly once, when the page's content has been processed.
use vstd::prelude::*;
use crate::table::{map_of, distinct_keys, lemma_map_of_domain, lemma_map_of_value};
use crate::text::{lex_lt, lemma_lex_lt_total, lemma_lex_lt_trans, lemma_lex_lt_irrefl, str_eq,
    str_lt};

verus! {

/// The dense index of a page inside the graph's backing array.
#[derive(Copy, Clone, PartialEq, Eq, Hash, Structural, Debug)]
pub struct PageId(pub usize);

/// A processed page: its name and the identifiers of its outgoing links,
/// in the order they were extracted.
pub struct Page {
    pub name: String,
    pub referenced: Vec<PageId>,
}

/// The page graph: a name table mapping each seen name to its identifier,
/// and an array of slots indexed by identifier.
///
/// The name table is kept strictly sorted by name, so iteration over it
/// yields names in lexicographic order.
pub struct PageGraph {
    pub name_table: Vec<(String, PageId)>,
    pub page_array: Vec<Option<Page>>,
}

/// The views of a list of string slices.
pub open spec fn views_of_strs(ss: Seq<&str>) -> Seq<Seq<char>> {
    ss.map_values(|s: &str| s@)
}

/// The name-to-identifier map `m` and the next fresh identifier `next`,
/// after every name of `names` in turn is given an identifier if it has
/// none yet.
pub open spec fn spec_add_names(
    m: Map<Seq<char>, int>,
    next: int,
    names: Seq<Seq<char>>,
) -> (Map<Seq<char>, int>, int)
    decreases names.len(),
{
    if names.len() == 0 {
        (m, next)
    } else if m.contains_key(names[0]) {
        spec_add_names(m, next, names.skip(1))
    } else {
        spec_add_names(m.insert(names[0], next), next + 1, names.skip(1))
    }
}

/// `spec_add_names` keeps every existing entry unchanged.
pub proof fn lemma_add_names_preserves(
    m: Map<Seq<char>, int>,
    next: int,
    names: Seq<Seq<char>>,
    n: Seq<char>,
)
    requires
        m.contains_key(n),
    ensures
        spec_add_names(m, next, names).0.contains_key(n),
        spec_add_names(m, next, names).0[n] == m[n],
    decreases names.len(),
{
    if names.len() > 0 {
        if m.contains_key(names[0]) {
            lemma_add_names_preserves(m, next, names.skip(1), n);
        } else {
            assert(n != names[0]);
            lemma_add_names_preserves(m.insert(names[0], next), next + 1, names.skip(1), n);
        }
    }
}

/// The next fresh identifier never decreases.
pub proof fn lemma_add_names_next_geq(m: Map<Seq<char>, int>, next: int, names: Seq<Seq<char>>)
    ensures
        spec_add_names(m, next, names).1 >= next,
    decreases names.len(),
{
    if names.len() > 0 {
        if m.contains_key(names[0]) {
            lemma_add_names_next_geq(m, next, names.skip(1));
        } else {
            lemma_add_names_next_geq(m.insert(names[0], next), next + 1, names.skip(1));
        }
    }
}

/// Every listed name ends up with an identifier.
pub proof fn lemma_add_names_has(
    m: Map<Seq<char>, int>,
    next: int,
    names: Seq<Seq<char>>,
    k: int,
)
    requires
        0 <= k < names.len(),
    ensures
        spec_add_names(m, next, names).0.contains_key(names[k]),
    decreases names.len(),
{
    let tail = names.skip(1);
    if m.contains_key(names[0]) {
        if k == 0 {
            lemma_add_names_preserves(m, next, tail, names[0]);
        } else {
            lemma_add_names_has(m, next, tail, k - 1);
            assert(tail[k - 1] == names[k]);
        }
    } else {
        let m1 = m.insert(names[0], next);
        if k == 0 {
            lemma_add_names_preserves(m1, next + 1, tail, names[0]);
        } else {
            lemma_add_names_has(m1, next + 1, tail, k - 1);
            assert(tail[k - 1] == names[k]);
        }
    }
}

/// A name that was fresh gets an identifier in `[next, next')`.
pub proof fn lemma_add_names_fresh_range(
    m: Map<Seq<char>, int>,
    next: int,
    names: Seq<Seq<char>>,
    n: Seq<char>,
)
    requires
        spec_add_names(m, next, names).0.contains_key(n),
        !m.contains_key(n),
    ensures
        next <= spec_add_names(m, next, names).0[n] < spec_add_names(m, next, names).1,
    decreases names.len(),
{
    let tail = names.skip(1);
    if m.contains_key(names[0]) {
        lemma_add_names_fresh_range(m, next, tail, n);
    } else {
        let m1 = m.insert(names[0], next);
        if n == names[0] {
            lemma_add_names_preserves(m1, next + 1, tail, n);
            lemma_add_names_next_geq(m1, next + 1, tail);
        } else {
            lemma_add_names_fresh_range(m1, next + 1, tail, n);
        }
    }
}

/// Every name in the result was in the map or among the listed names.
pub proof fn lemma_add_names_from(
    m: Map<Seq<char>, int>,
    next: int,
    names: Seq<Seq<char>>,
    n: Seq<char>,
)
    requires
        spec_add_names(m, next, names).0.contains_key(n),
        !m.contains_key(n),
    ensures
        names.contains(n),
    decreases names.len(),
{
    let tail = names.skip(1);
    if m.contains_key(names[0]) {
        lemma_add_names_from(m, next, tail, n);
        let k = choose|k: int| 0 <= k < tail.len() && tail[k] == n;
        assert(names[k + 1] == n);
    } else {
        if n != names[0] {
            let m1 = m.insert(names[0], next);
            lemma_add_names_from(m1, next + 1, tail, n);
            let k = choose|k: int| 0 <= k < tail.len() && tail[k] == n;
            assert(names[k + 1] == n);
        } else {
            assert(names[0] == n);
        }
    }
}

/// If every listed name already has an identifier, nothing changes.
///
/// This is the idempotence law of `insert_page`: a second call with the
/// same name and links finds every link target present, so by this lemma
/// and `insert_page`'s `None` case the call returns `None` and leaves the
/// name map, the graph length and every slot exactly as they were.
pub proof fn lemma_spec_add_names_noop(m: Map<Seq<char>, int>, next: int, names: Seq<Seq<char>>)
    requires
        forall|k: int| 0 <= k < names.len() ==> m.contains_key(names[k]),
    ensures
        spec_add_names(m, next, names) == (m, next),
    decreases names.len(),
{
    if names.len() > 0 {
        assert(m.contains_key(names[0]));
        assert(forall|k: int| 0 <= k < names.skip(1).len() ==> names.skip(1)[k] == names[k + 1]);
        lemma_spec_add_names_noop(m, next, names.skip(1));
    }
}

impl PageGraph {
    /// The rows of the name table.
    pub open spec fn tbl(self) -> Seq<(String, PageId)> {
        self.name_table@
    }

    /// The slots, indexed by identifier.
    pub open spec fn pgs(self) -> Seq<Option<Page>> {
        self.page_array@
    }

    /// How many identifiers have been assigned.
    pub open spec fn graph_len(self) -> int {
        self.page_array@.len() as int
    }

    /// The name table as a sequence of (name view, identifier) pairs.
    pub open spec fn table_view(self) -> Seq<(Seq<char>, int)> {
        self.name_table@.map_values(|e: (String, PageId)| (e.0@, e.1.0 as int))
    }

    /// The graph's name-to-identifier map.
    pub open spec fn name_map(self) -> Map<Seq<char>, int> {
        map_of(self.table_view())
    }

    /// Some row of the name table carries identifier `id`.
    pub open spec fn has_row_for(self, id: int) -> bool {
        exists|i: int|
            0 <= i < self.name_table@.len() && (#[trigger] self.name_table@[i]).1.0 == id
    }

    /// A name is known and its slot is already filled.
    pub open spec fn is_known(self, n: Seq<char>) -> bool {
        &&& self.name_map().contains_key(n)
        &&& 0 <= self.name_map()[n] < self.graph_len()
        &&& self.page_array@[self.name_map()[n]] is Some
    }

    /// Well-formedness: the name table is strictly sorted; names and
    /// identifiers are in bijection with `0..graph_len()`; a filled slot
    /// carries its own name; and every referenced identifier is a valid
    /// slot index (no dangling identifiers).
    pub open spec fn wf(self) -> bool {
        let tbl = self.name_table@;
        let pgs = self.page_array@;
        &&& tbl.len() == pgs.len()
        &&& forall|i: int, j: int|
            0 <= i < j < tbl.len() ==> #[trigger] lex_lt(tbl[i].0@, tbl[j].0@)
        &&& forall|i: int| 0 <= i < tbl.len() ==> (#[trigger] tbl[i].1).0 < pgs.len()
        &&& forall|i: int, j: int|
            0 <= i < tbl.len() && 0 <= j < tbl.len() && i != j ==> (#[trigger] tbl[i].1).0 != (
            #[trigger] tbl[j].1).0
        &&& forall|id: int| 0 <= id < pgs.len() ==> #[trigger] self.has_row_for(id)
        &&& forall|i: int|
            0 <= i < tbl.len() ==> ((#[trigger] pgs[tbl[i].1.0 as int]) matches Some(p) ==> p.name@
                == tbl[i].0@)
        &&& forall|id: int|
            0 <= id < pgs.len() ==> ((#[trigger] pgs[id]) matches Some(p) ==> forall|k: int|
                0 <= k < p.referenced@.len() ==> (#[trigger] p.referenced@[k]).0 < pgs.len())
    }

    /// No dangling identifiers: in a well-formed graph — and every
    /// operation of this module yields one — each identifier referenced by
    /// any page is a valid slot index and owns a row of the name table.
    pub proof fn lemma_no_dangling_references(self, id: int, k: int)
        requires
            self.wf(),
            0 <= id < self.graph_len(),
            self.pgs()[id] matches Some(p) && 0 <= k < p.referenced@.len(),
        ensures
            self.pgs()[id] matches Some(p) ==> {
                let r = p.referenced@[k].0 as int;
                0 <= r < self.graph_len() && self.has_row_for(r)
            },
    {
    }

    /// In a well-formed graph the table's names are pairwise distinct.
    pub proof fn lemma_names_distinct(self)
        requires
            self.wf(),
        ensures
            distinct_keys(self.table_view()),
            forall|i: int, j: int|
                0 <= i < j < self.tbl().len() ==> self.tbl()[i].0@ != self.tbl()[j].0@,
    {
        assert forall|i: int, j: int|
            0 <= i < j < self.tbl().len() implies self.tbl()[i].0@ != self.tbl()[j].0@ by {
            lemma_lex_lt_irrefl(self.tbl()[i].0@);
        }
        assert forall|i: int, j: int|
            0 <= i < j < self.table_view().len() implies self.table_view()[i].0
            != self.table_view()[j].0 by {
            lemma_lex_lt_irrefl(self.tbl()[i].0@);
        }
    }

    /// A row of the table and the name map agree.
    pub proof fn lemma_row_map(self, i: int)
        requires
            self.wf(),
            0 <= i < self.tbl().len(),
        ensures
            self.name_map().contains_key(self.tbl()[i].0@),
            self.name_map()[self.tbl()[i].0@] == self.tbl()[i].1.0 as int,
    {
        self.lemma_names_distinct();
        lemma_map_of_value(self.table_view(), i);
    }

    /// A name in the map has a row in the table.
    pub proof fn lemma_map_row(self, n: Seq<char>)
        requires
            self.name_map().contains_key(n),
        ensures
            exists|i: int| 0 <= i < self.tbl().len() && (#[trigger] self.tbl()[i]).0@ == n,
    {
        lemma_map_of_domain(self.table_view(), n);
        let i = choose|i: int| 0 <= i < self.table_view().len() && self.table_view()[i].0 == n;
        assert(self.tbl()[i].0@ == n);
    }

    /// Every identifier in the name map is a valid slot index.
    pub proof fn lemma_map_ids_in_range(self, n: Seq<char>)
        requires
            self.wf(),
            self.name_map().contains_key(n),
        ensures
            0 <= self.name_map()[n] < self.graph_len(),
    {
        self.lemma_map_row(n);
        let i = choose|i: int| 0 <= i < self.tbl().len() && (#[trigger] self.tbl()[i]).0@ == n;
        self.lemma_row_map(i);
    }

    /// A fresh, empty graph.
    pub fn new() -> (g: Self)
        ensures
            g.wf(),
            g.graph_len() == 0,
            g.name_map() == Map::<Seq<char>, int>::empty(),
            g.tbl().len() == 0,
    {
        let g = Self { name_table: Vec::new(), page_array: Vec::new() };
        proof {
            assert(g.table_view() =~= Seq::<(Seq<char>, int)>::empty());
        }
        g
    }

    /// Find a name's row, or the position where it would be inserted.
    /// Returns `(pos, true)` when row `pos` carries the name, and
    /// `(pos, false)` when the name is absent and belongs at `pos`.
    fn find_position(&self, name: &str) -> (r: (usize, bool))
        requires
            self.wf(),
        ensures
            r.1 ==> r.0 < self.tbl().len() && self.tbl()[r.0 as int].0@ == name@,
            !r.1 ==> {
                &&& r.0 <= self.tbl().len()
                &&& forall|j: int| 0 <= j < r.0 ==> lex_lt(self.tbl()[j].0@, name@)
                &&& (r.0 == self.tbl().len() || lex_lt(name@, self.tbl()[r.0 as int].0@))
                &&& forall|j: int| 0 <= j < self.tbl().len() ==> self.tbl()[j].0@ != name@
                &&& !self.name_map().contains_key(name@)
            },
    {
        let n = self.name_table.len();
        let mut i: usize = 0;
        while i < n
            invariant
                self.wf(),
                i <= n,
                n == self.tbl().len(),
                forall|j: int| 0 <= j < i ==> lex_lt(self.tbl()[j].0@, name@),
            decreases n - i,
        {
            let row_name: &String = &self.name_table[i].0;
            if str_eq(row_name.as_str(), name) {
                return (i, true);
            }
            if str_lt(name, row_name.as_str()) {
                proof {
                    self.lemma_not_present(i as int, name@);
                }
                return (i, false);
            }
            proof {
                lemma_lex_lt_total(self.tbl()[i as int].0@, name@);
            }
            i += 1;
        }
        proof {
            assert forall|j: int| 0 <= j < self.tbl().len() implies self.tbl()[j].0@ != name@ by {
                lemma_lex_lt_irrefl(name@);
            }
            lemma_map_of_domain(self.table_view(), name@);
        }
        (i, false)
    }

    /// If rows before `pos` are below `name` and row `pos` is above it,
    /// the name is nowhere in the table.
    proof fn lemma_not_present(self, pos: int, name: Seq<char>)
        requires
            self.wf(),
            0 <= pos < self.tbl().len(),
            forall|j: int| 0 <= j < pos ==> lex_lt(self.tbl()[j].0@, name),
            lex_lt(name, self.tbl()[pos].0@),
        ensures
            forall|j: int| 0 <= j < self.tbl().len() ==> self.tbl()[j].0@ != name,
            !self.name_map().contains_key(name),
    {
        assert forall|j: int| 0 <= j < self.tbl().len() implies self.tbl()[j].0@ != name by {
            if j < pos {
                lemma_lex_lt_irrefl(name);
            } else if j == pos {
                lemma_lex_lt_irrefl(name);
            } else {
                lemma_lex_lt_trans(name, self.tbl()[pos].0@, self.tbl()[j].0@);
                lemma_lex_lt_irrefl(name);
            }
        }
        lemma_map_of_domain(self.table_view(), name);
    }

    /// Inserting a fresh row into the table inserts its pair into the map.
    proof fn lemma_table_insert(s: Seq<(Seq<char>, int)>, pos: int, k: Seq<char>, v: int)
        requires
            0 <= pos <= s.len(),
            forall|i: int| 0 <= i < s.len() ==> (#[trigger] s[i]).0 != k,
        ensures
            map_of(s.insert(pos, (k, v))) == map_of(s).insert(k, v),
        decreases s.len(),
    {
        let s2 = s.insert(pos, (k, v));
        s.insert_ensures(pos, (k, v));
        if pos == s.len() {
            assert(s2.drop_last() =~= s);
            assert(s2.last() == (k, v));
        } else {
            assert(s2.last() == s.last());
            assert(s2.drop_last() =~= s.drop_last().insert(pos, (k, v))) by {
                s.drop_last().insert_ensures(pos, (k, v));
            }
            Self::lemma_table_insert(s.drop_last(), pos, k, v);
            assert(map_of(s2) == map_of(s.drop_last()).insert(k, v).insert(
                s.last().0,
                s.last().1,
            ));
            assert(s.last().0 != k);
            assert(map_of(s.drop_last()).insert(k, v).insert(s.last().0, s.last().1) =~= map_of(
                s.drop_last(),
            ).insert(s.last().0, s.last().1).insert(k, v));
        }
    }

    /// Return the identifier of `name`, creating a fresh placeholder
    /// ("unknown") entry for it when the name is new. Idempotent per name.
    pub fn get_page_id_or_insert_empty(&mut self, name: &str) -> (r: PageId)
        requires
            old(self).wf(),
            old(self).graph_len() < usize::MAX,
        ensures
            final(self).wf(),
            final(self).name_map().contains_key(name@),
            r.0 as int == final(self).name_map()[name@],
            old(self).name_map().contains_key(name@) ==> *final(self) == *old(self),
            !old(self).name_map().contains_key(name@) ==> {
                &&& r.0 as int == old(self).graph_len()
                &&& final(self).page_array@ == old(self).page_array@.push(None::<Page>)
                &&& final(self).name_map() == old(self).name_map().insert(
                    name@,
                    old(self).graph_len(),
                )
            },
    {
        let (pos, found) = self.find_position(name);
        if found {
            proof {
                self.lemma_row_map(pos as int);
            }
            return self.name_table[pos].1;
        }
        let id = PageId(self.page_array.len());
        let ghost old_g = *self;
        let pair = (name.to_owned(), id);
        let ghost gpair = pair;
        self.name_table.insert(pos, pair);
        self.page_array.push(None);
        proof {
            old_g.tbl().insert_ensures(pos as int, gpair);
            self.lemma_view_after_insert(old_g, pos as int, name@, id.0 as int);
            Self::lemma_table_insert(old_g.table_view(), pos as int, name@, id.0 as int);
            assert(self.name_map() == old_g.name_map().insert(name@, old_g.graph_len()));
            self.lemma_wf_after_append_row(old_g, pos as int, name@);
            self.lemma_row_map(pos as int);
        }
        id
    }

    /// After a `Vec::insert` on the name table, the table view is the
    /// insertion of the new pair into the old view.
    proof fn lemma_view_after_insert(self, pre: PageGraph, pos: int, name: Seq<char>, id: int)
        requires
            0 <= pos <= pre.tbl().len(),
            self.tbl().len() == pre.tbl().len() + 1,
            forall|j: int| 0 <= j < pos ==> self.tbl()[j] == pre.tbl()[j],
            forall|j: int| pos <= j < pre.tbl().len() ==> self.tbl()[j + 1] == pre.tbl()[j],
            self.tbl()[pos].0@ == name,
            self.tbl()[pos].1.0 as int == id,
        ensures
            self.table_view() == pre.table_view().insert(pos, (name, id)),
    {
        pre.table_view().insert_ensures(pos, (name, id));
        let target = pre.table_view().insert(pos, (name, id));
        assert forall|j: int| 0 <= j < self.table_view().len() implies self.table_view()[j]
            == target[j] by {
            if j < pos {
                assert(self.tbl()[j] == pre.tbl()[j]);
            } else if j > pos {
                assert(self.tbl()[j] == pre.tbl()[j - 1]);
                assert(target[j] == pre.table_view()[j - 1]);
            }
        }
        assert(self.table_view() =~= target);
    }

    /// Well-formedness is preserved by inserting a fresh row whose
    /// identifier is the new last slot, that slot being either a
    /// placeholder or a page carrying the row's name and valid references.
    proof fn lemma_wf_after_append_row(self, pre: PageGraph, pos: int, name: Seq<char>)
        requires
            pre.wf(),
            0 <= pos <= pre.tbl().len(),
            forall|j: int| 0 <= j < pos ==> lex_lt(pre.tbl()[j].0@, name),
            pos == pre.tbl().len() || lex_lt(name, pre.tbl()[pos].0@),
            self.tbl().len() == pre.tbl().len() + 1,
            forall|j: int| 0 <= j < pos ==> self.tbl()[j] == pre.tbl()[j],
            forall|j: int| pos <= j < pre.tbl().len() ==> self.tbl()[j + 1] == pre.tbl()[j],
            self.tbl()[pos].0@ == name,
            self.tbl()[pos].1.0 as int == pre.pgs().len(),
            self.pgs().len() == pre.pgs().len() + 1,
            forall|j: int| 0 <= j < pre.pgs().len() ==> self.pgs()[j] == pre.pgs()[j],
            self.pgs()[pre.pgs().len() as int] is None || (self.pgs()[pre.pgs().len() as int]
                matches Some(p) && p.name@ == name && (forall|k: int|
                0 <= k < p.referenced@.len() ==> (#[trigger] p.referenced@[k]).0
                    < self.pgs().len())),
        ensures
            self.wf(),
    {
        assert forall|i: int, j: int|
            0 <= i < j < self.tbl().len() implies lex_lt(self.tbl()[i].0@, self.tbl()[j].0@) by {
            if j < pos {
                assert(self.tbl()[i] == pre.tbl()[i]);
                assert(self.tbl()[j] == pre.tbl()[j]);
            } else if i < pos && j == pos {
                assert(self.tbl()[i] == pre.tbl()[i]);
            } else if i == pos {
                assert(self.tbl()[j] == pre.tbl()[j - 1]);
                if j - 1 > pos {
                    lemma_lex_lt_trans(name, pre.tbl()[pos].0@, pre.tbl()[j - 1].0@);
                }
            } else if i < pos {
                assert(self.tbl()[i] == pre.tbl()[i]);
                assert(self.tbl()[j] == pre.tbl()[j - 1]);
                assert(lex_lt(pre.tbl()[i].0@, pre.tbl()[j - 1].0@));
            } else {
                assert(self.tbl()[i] == pre.tbl()[i - 1]);
                assert(self.tbl()[j] == pre.tbl()[j - 1]);
                assert(lex_lt(pre.tbl()[i - 1].0@, pre.tbl()[j - 1].0@));
            }
        }
        assert forall|i: int|
            0 <= i < self.tbl().len() implies (#[trigger] self.tbl()[i].1).0
            < self.pgs().len() by {
            if i < pos {
                assert(self.tbl()[i] == pre.tbl()[i]);
            } else if i > pos {
                assert(self.tbl()[i] == pre.tbl()[i - 1]);
            }
        }
        assert forall|i: int, j: int|
            0 <= i < self.tbl().len() && 0 <= j < self.tbl().len() && i != j implies (
            #[trigger] self.tbl()[i].1).0 != (#[trigger] self.tbl()[j].1).0 by {
            if i == pos {
                let pj: int = if j < pos {
                    j
                } else {
                    j - 1
                };
                assert(self.tbl()[j] == pre.tbl()[pj]);
                assert(pre.tbl()[pj].1.0 < pre.pgs().len());
            } else if j == pos {
                let pi: int = if i < pos {
                    i
                } else {
                    i - 1
                };
                assert(self.tbl()[i] == pre.tbl()[pi]);
                assert(pre.tbl()[pi].1.0 < pre.pgs().len());
            } else {
                let pi: int = if i < pos {
                    i
                } else {
                    i - 1
                };
                let pj: int = if j < pos {
                    j
                } else {
                    j - 1
                };
                assert(self.tbl()[i] == pre.tbl()[pi]);
                assert(self.tbl()[j] == pre.tbl()[pj]);
                assert(pi != pj);
            }
        }
        assert forall|id: int|
            0 <= id < self.pgs().len() implies ((#[trigger] self.pgs()[id]) matches Some(p)
                ==> forall|k: int|
                0 <= k < p.referenced@.len() ==> (#[trigger] p.referenced@[k]).0
                    < self.pgs().len()) by {
            if id < pre.pgs().len() {
                assert(self.pgs()[id] == pre.pgs()[id]);
                assert(pre.pgs()[id] matches Some(p) ==> forall|k: int|
                    0 <= k < p.referenced@.len() ==> (#[trigger] p.referenced@[k]).0
                        < pre.pgs().len());
            }
        }
        assert forall|id: int| 0 <= id < self.pgs().len() implies #[trigger] self.has_row_for(
            id,
        ) by {
            if id < pre.pgs().len() {
                assert(pre.has_row_for(id));
                let i = choose|i: int|
                    0 <= i < pre.tbl().len() && (#[trigger] pre.tbl()[i]).1.0 == id;
                if i < pos {
                    assert(self.tbl()[i].1.0 == id);
                } else {
                    assert(self.tbl()[i + 1].1.0 == id);
                }
            } else {
                assert(self.tbl()[pos].1.0 == id);
            }
        }
        assert forall|i: int|
            0 <= i < self.tbl().len() implies ((#[trigger] self.pgs()[self.tbl()[i].1.0 as int])
            matches Some(p) ==> p.name@ == self.tbl()[i].0@) by {
            if i != pos {
                let j: int = if i < pos {
                    i
                } else {
                    i - 1
                };
                assert(self.tbl()[i] == pre.tbl()[j]);
            }
        }
    }

    /// Pairwise order follows from adjacent order.
    proof fn lemma_pairwise_from_adjacent(tbl: Seq<(String, u64)>, i: int, j: int)
        requires
            forall|a: int|
                0 <= a && a + 1 < tbl.len() ==> #[trigger] lex_lt(tbl[a].0@, tbl[a + 1].0@),
            0 <= i < j < tbl.len(),
        ensures
            lex_lt(tbl[i].0@, tbl[j].0@),
        decreases j - i,
    {
        if j == i + 1 {
        } else {
            Self::lemma_pairwise_from_adjacent(tbl, i, j - 1);
            assert(lex_lt(tbl[j - 1].0@, tbl[(j - 1) + 1].0@));
            lemma_lex_lt_trans(tbl[i].0@, tbl[j - 1].0@, tbl[j].0@);
        }
    }

    /// Encode the graph into its persisted form: the sorted name table
    /// and, per identifier, the link identifiers of a filled slot.
    pub fn to_graph_data(&self) -> (d: GraphData)
        requires
            self.wf(),
        ensures
            spec_data_matches(*self, d),
            spec_data_valid(d),
    {
        let n = self.name_table.len();
        let mut name_table: Vec<(String, u64)> = Vec::new();
        let mut i: usize = 0;
        while i < n
            invariant
                self.wf(),
                i <= n,
                n == self.tbl().len(),
                name_table@.len() == i,
                forall|m: int|
                    0 <= m < i ==> (#[trigger] name_table@[m]).0@ == self.tbl()[m].0@
                        && name_table@[m].1 as int == self.tbl()[m].1.0 as int,
            decreases n - i,
        {
            let row_name = self.name_table[i].0.clone();
            let row_id = self.name_table[i].1;
            name_table.push((row_name, row_id.0 as u64));
            i += 1;
        }
        let cnt = self.page_array.len();
        let mut pages: Vec<Option<Vec<u64>>> = Vec::new();
        let mut id: usize = 0;
        while id < cnt
            invariant
                self.wf(),
                id <= cnt,
                cnt == self.pgs().len(),
                pages@.len() == id,
                forall|x: int|
                    0 <= x < id ==> ((#[trigger] pages@[x]) is Some <==> self.pgs()[x] is Some),
                forall|x: int|
                    0 <= x < id ==> ((#[trigger] self.pgs()[x]) matches Some(p) ==> (
                    pages@[x] matches Some(refs) && p.referenced@.len() == refs@.len() && (forall|
                        k: int,
                    |
                        0 <= k < refs@.len() ==> (#[trigger] p.referenced@[k]).0 as int == refs@[
                            k
                        ] as int))),
            decreases cnt - id,
        {
            match &self.page_array[id] {
                None => {
                    pages.push(None);
                },
                Some(p) => {
                    let rn = p.referenced.len();
                    let mut refs: Vec<u64> = Vec::new();
                    let mut k: usize = 0;
                    while k < rn
                        invariant
                            k <= rn,
                            rn == p.referenced@.len(),
                            refs@.len() == k,
                            forall|m: int|
                                0 <= m < k ==> (#[trigger] refs@[m]) as int == p.referenced@[m].0
                                    as int,
                        decreases rn - k,
                    {
                        refs.push(p.referenced[k].0 as u64);
                        k += 1;
                    }
                    pages.push(Some(refs));
                },
            }
            id += 1;
        }
        let d = GraphData { name_table, pages };
        proof {
            assert(spec_data_matches(*self, d));
            assert forall|a: int, b: int|
                0 <= a < b < d.name_table@.len() implies #[trigger] lex_lt(
                d.name_table@[a].0@,
                d.name_table@[b].0@,
            ) by {
                assert(lex_lt(self.tbl()[a].0@, self.tbl()[b].0@));
            }
            assert forall|x: int|
                0 <= x < d.pages@.len() implies #[trigger] data_has_row_for(d, x) by {
                assert(self.has_row_for(x));
                let m = choose|m: int|
                    0 <= m < self.tbl().len() && (#[trigger] self.tbl()[m]).1.0 == x;
                assert(d.name_table@[m].1 as int == x);
            }
            assert forall|x: int|
                0 <= x < d.pages@.len() implies ((#[trigger] d.pages@[x]) matches Some(refs)
                    ==> forall|k: int|
                    0 <= k < refs@.len() ==> (#[trigger] refs@[k]) < d.pages@.len()) by {
                if d.pages@[x] is Some {
                    assert(self.pgs()[x] is Some);
                    let p = self.pgs()[x]->Some_0;
                    let refs = d.pages@[x]->Some_0;
                    assert forall|k: int|
                        0 <= k < refs@.len() implies (#[trigger] refs@[k])
                        < d.pages@.len() by {
                        assert(p.referenced@[k].0 as int == refs@[k] as int);
                        assert(p.referenced@[k].0 < self.pgs().len());
                    }
                }
            }
            assert(spec_data_valid(d));
        }
        d
    }

    /// Check that persisted data is decodable: equal lengths, a strictly
    /// sorted name table, identifiers in bijection with the slots, and
    /// every link identifier in range.
    #[verifier::rlimit(100)]
    fn validate_graph_data(d: &GraphData) -> (ok: bool)
        ensures
            ok <==> spec_data_valid(*d),
    {
        let ghost tbl = d.name_table@;
        let ghost pgs = d.pages@;
        let n = d.name_table.len();
        if d.pages.len() != n {
            return false;
        }
        let mut seen: Vec<bool> = Vec::new();
        let mut x: usize = 0;
        while x < n
            invariant
                x <= n,
                seen@.len() == x,
                forall|y: int| 0 <= y < x ==> !(#[trigger] seen@[y]),
            decreases n - x,
        {
            seen.push(false);
            x += 1;
        }
        let mut i: usize = 0;
        while i < n
            invariant
                i <= n,
                n == tbl.len(),
                n == pgs.len(),
                tbl == d.name_table@,
                seen@.len() == n,
                forall|m: int| 0 <= m < i ==> ((#[trigger] tbl[m]).1 as int) < (n as int),
                forall|a: int, b: int|
                    0 <= a < i && 0 <= b < i && a != b ==> (#[trigger] tbl[a]).1 != (
                #[trigger] tbl[b]).1,
                forall|y: int|
                    0 <= y < n ==> ((#[trigger] seen@[y]) <==> exists|m: int|
                        0 <= m < i && (#[trigger] tbl[m]).1 as int == y),
                forall|a: int|
                    0 <= a && a + 1 < i ==> #[trigger] lex_lt(tbl[a].0@, tbl[a + 1].0@),
            decreases n - i,
        {
            let ghost old_seen = seen@;
            let id64 = d.name_table[i].1;
            if id64 >= (n as u64) {
                proof {
                    assert(!spec_data_valid(*d));
                }
                return false;
            }
            let id = id64 as usize;
            if seen[id] {
                proof {
                    let m = choose|m: int| 0 <= m < i && (#[trigger] tbl[m]).1 as int == id as int;
                    assert(tbl[m].1 == tbl[i as int].1);
                    assert(!spec_data_valid(*d));
                }
                return false;
            }
            if i > 0 {
                if !crate::text::str_lt(
                    d.name_table[i - 1].0.as_str(),
                    d.name_table[i].0.as_str(),
                ) {
                    proof {
                        assert(!spec_data_valid(*d));
                    }
                    return false;
                }
            }
            seen[id] = true;
            proof {
                assert forall|a: int, b: int|
                    0 <= a < i + 1 && 0 <= b < i + 1 && a != b implies (#[trigger] tbl[a]).1 != (
                #[trigger] tbl[b]).1 by {
                    if a == i as int && b < i && tbl[b].1 as int == id as int {
                        assert(old_seen[id as int]);
                    }
                    if b == i as int && a < i && tbl[a].1 as int == id as int {
                        assert(old_seen[id as int]);
                    }
                }
            }
            i += 1;
        }
        let mut y: usize = 0;
        while y < n
            invariant
                y <= n,
                n == tbl.len(),
                n == pgs.len(),
                tbl == d.name_table@,
                seen@.len() == n,
                forall|z: int| 0 <= z < y ==> (#[trigger] seen@[z]),
                forall|z: int|
                    0 <= z < n ==> ((#[trigger] seen@[z]) <==> exists|m: int|
                        0 <= m < n && (#[trigger] tbl[m]).1 as int == z),
            decreases n - y,
        {
            if !seen[y] {
                proof {
                    assert(!data_has_row_for(*d, y as int));
                    assert(!spec_data_valid(*d));
                }
                return false;
            }
            y += 1;
        }
        let mut z: usize = 0;
        while z < n
            invariant
                z <= n,
                n == tbl.len(),
                n == pgs.len(),
                tbl == d.name_table@,
                pgs == d.pages@,
                seen@.len() == n,
                forall|w: int| 0 <= w < n ==> #[trigger] seen@[w],
                forall|w: int|
                    0 <= w < n ==> ((#[trigger] seen@[w]) <==> exists|m: int|
                        0 <= m < n && (#[trigger] tbl[m]).1 as int == w),
                forall|a: int, b: int|
                    0 <= a < n && 0 <= b < n && a != b ==> (#[trigger] tbl[a]).1 != (
                #[trigger] tbl[b]).1,
                forall|m: int| 0 <= m < n ==> ((#[trigger] tbl[m]).1 as int) < (n as int),
                forall|a: int|
                    0 <= a && a + 1 < n ==> #[trigger] lex_lt(tbl[a].0@, tbl[a + 1].0@),
                forall|w: int|
                    0 <= w < z ==> ((#[trigger] pgs[w]) matches Some(refs) ==> forall|k: int|
                        0 <= k < refs@.len() ==> (#[trigger] refs@[k]) < pgs.len()),
            decreases n - z,
        {
            match &d.pages[z] {
                None => {},
                Some(refs_src) => {
                    let rn = refs_src.len();
                    let mut k: usize = 0;
                    while k < rn
                        invariant
                            k <= rn,
                            rn == refs_src@.len(),
                            n == pgs.len(),
                            pgs == d.pages@,
                            0 <= (z as int) < (n as int),
                            (pgs[z as int] matches Some(rs) && rs@ == refs_src@),
                            forall|m: int|
                                0 <= m < k ==> ((#[trigger] refs_src@[m]) as int) < (n as int),
                        decreases rn - k,
                    {
                        if refs_src[k] >= (n as u64) {
                            proof {
                                assert(!spec_data_valid(*d));
                            }
                            return false;
                        }
                        k += 1;
                    }
                },
            }
            z += 1;
        }
        proof {
            assert forall|a: int, b: int|
                0 <= a < b < tbl.len() implies #[trigger] lex_lt(tbl[a].0@, tbl[b].0@) by {
                Self::lemma_pairwise_from_adjacent(tbl, a, b);
            }
            assert forall|w: int| 0 <= w < pgs.len() implies #[trigger] data_has_row_for(
                *d,
                w,
            ) by {
                assert(seen@[w]);
                let m = choose|m: int| 0 <= m < n && (#[trigger] tbl[m]).1 as int == w;
                assert(d.name_table@[m].1 as int == w);
            }
            assert(spec_data_valid(*d));
        }
        true
    }

    /// Decode a persisted graph, or fail on any shape the format does not
    /// allow: mismatched lengths, an unsorted or duplicated name table, an
    /// identifier without a name or a name whose identifier is out of
    /// range, or a link identifier out of range.
    #[verifier::rlimit(100)]
    pub fn from_graph_data(d: &GraphData) -> (r: Option<PageGraph>)
        ensures
            r is Some <==> spec_data_valid(*d),
            r matches Some(g) ==> g.wf() && spec_data_matches(g, *d),
    {
        let ghost tbl = d.name_table@;
        let ghost pgs = d.pages@;
        if !Self::validate_graph_data(d) {
            return None;
        }
        let n = d.name_table.len();
        let mut page_array: Vec<Option<Page>> = Vec::new();
        let mut x: usize = 0;
        while x < n
            invariant
                x <= n,
                page_array@.len() == x,
                forall|y: int| 0 <= y < x ==> (#[trigger] page_array@[y]) is None,
            decreases n - x,
        {
            page_array.push(None);
            x += 1;
        }
        let mut rows: Vec<(String, PageId)> = Vec::new();
        let mut i: usize = 0;
        while i < n
            invariant
                i <= n,
                n == tbl.len(),
                n == pgs.len(),
                tbl == d.name_table@,
                pgs == d.pages@,
                spec_data_valid(*d),
                page_array@.len() == n,
                rows@.len() == i,
                forall|m: int|
                    0 <= m < i ==> (#[trigger] rows@[m]).0@ == tbl[m].0@ && rows@[m].1.0 as int
                        == tbl[m].1 as int,
                forall|y: int|
                    0 <= y < n && (#[trigger] page_array@[y]) is Some ==> exists|m: int|
                        0 <= m < i && (#[trigger] tbl[m]).1 as int == y,
                forall|m: int|
                    0 <= m < i ==> #[trigger] decode_row_ok(tbl, pgs, page_array@, m, n as int),
            decreases n - i,
        {
            let ghost old_pa = page_array@;
            let id64 = d.name_table[i].1;
            proof {
                assert(((tbl[i as int]).1 as int) < (n as int));
            }
            let id = id64 as usize;
            rows.push((d.name_table[i].0.clone(), PageId(id)));
            proof {
                assert forall|m: int|
                    0 <= m < i implies tbl[m].1 as int != id as int by {
                    assert(tbl[m].1 != tbl[i as int].1);
                }
                assert(page_array@[id as int] is None) by {
                    if page_array@[id as int] is Some {
                        let m = choose|m: int|
                            0 <= m < i && (#[trigger] tbl[m]).1 as int == id as int;
                    }
                }
            }
            match &d.pages[id] {
                None => {},
                Some(refs_src) => {
                    let rn = refs_src.len();
                    let mut refs: Vec<PageId> = Vec::new();
                    let mut k: usize = 0;
                    while k < rn
                        invariant
                            k <= rn,
                            rn == refs_src@.len(),
                            n == pgs.len(),
                            pgs == d.pages@,
                            spec_data_valid(*d),
                            0 <= (id as int) < (n as int),
                            (pgs[id as int] matches Some(rs) && rs@ == refs_src@),
                            refs@.len() == k,
                            forall|m: int|
                                0 <= m < k ==> ((#[trigger] refs@[m]).0 as int == refs_src@[m]
                                    as int) && ((refs_src@[m]) as int) < (n as int),
                        decreases rn - k,
                    {
                        let v = refs_src[k];
                        proof {
                            assert((refs_src@[k as int] as int) < (n as int));
                        }
                        refs.push(PageId(v as usize));
                        k += 1;
                    }
                    let pg = Page { name: d.name_table[i].0.clone(), referenced: refs };
                    page_array[id] = Some(pg);
                },
            }
            proof {
                assert forall|m: int|
                    0 <= m < i + 1 implies #[trigger] decode_row_ok(
                    tbl,
                    pgs,
                    page_array@,
                    m,
                    n as int,
                ) by {
                    let y = tbl[m].1 as int;
                    if m < i {
                        assert(decode_row_ok(tbl, pgs, old_pa, m, n as int));
                        assert(tbl[m].1 != tbl[i as int].1);
                        assert(page_array@[y] == old_pa[y]);
                    } else {
                        assert(y == id as int);
                        if pgs[y] is None {
                            assert(page_array@[y] == old_pa[y]);
                        }
                    }
                }
            }
            i += 1;
        }
        let g = PageGraph { name_table: rows, page_array };
        proof {
            assert forall|a: int, b: int|
                0 <= a < b < g.tbl().len() implies #[trigger] lex_lt(
                g.tbl()[a].0@,
                g.tbl()[b].0@,
            ) by {
                assert(lex_lt(tbl[a].0@, tbl[b].0@));
            }
            assert forall|z: int| 0 <= z < g.pgs().len() implies #[trigger] g.has_row_for(z) by {
                assert(data_has_row_for(*d, z));
                let m = choose|m: int|
                    0 <= m < d.name_table@.len() && (#[trigger] d.name_table@[m]).1 as int == z;
                assert(g.tbl()[m].1.0 == z);
            }
            assert forall|m: int|
                0 <= m < g.tbl().len() implies ((#[trigger] g.pgs()[g.tbl()[m].1.0 as int])
                matches Some(p) ==> p.name@ == g.tbl()[m].0@) by {
                assert(g.tbl()[m].1.0 as int == tbl[m].1 as int);
                assert(decode_row_ok(tbl, pgs, g.pgs(), m, n as int));
            }
            assert forall|z: int|
                0 <= z < g.pgs().len() implies ((#[trigger] g.pgs()[z]) matches Some(p)
                    ==> forall|k: int|
                    0 <= k < p.referenced@.len() ==> (#[trigger] p.referenced@[k]).0
                        < g.pgs().len()) by {
                assert(data_has_row_for(*d, z));
                let m = choose|m: int|
                    0 <= m < d.name_table@.len() && (#[trigger] d.name_table@[m]).1 as int == z;
                assert(decode_row_ok(tbl, pgs, g.pgs(), m, n as int));
            }
            assert(g.wf());
            assert forall|z: int|
                0 <= z < pgs.len() implies ((#[trigger] g.pgs()[z]) is Some <==> pgs[z]
                is Some) by {
                assert(data_has_row_for(*d, z));
                let m = choose|m: int|
                    0 <= m < d.name_table@.len() && (#[trigger] d.name_table@[m]).1 as int == z;
                assert(decode_row_ok(tbl, pgs, g.pgs(), m, n as int));
            }
            assert forall|z: int|
                0 <= z < pgs.len() implies ((#[trigger] g.pgs()[z]) matches Some(p) ==> (
                pgs[z] matches Some(refs) && p.referenced@.len() == refs@.len() && (forall|k: int|
                    0 <= k < refs@.len() ==> (#[trigger] p.referenced@[k]).0 as u64 == refs@[
                        k
                    ]))) by {
                assert(data_has_row_for(*d, z));
                let m = choose|m: int|
                    0 <= m < d.name_table@.len() && (#[trigger] d.name_table@[m]).1 as int == z;
                assert(decode_row_ok(tbl, pgs, g.pgs(), m, n as int));
            }
            assert(spec_data_matches(g, *d));
        }
        Some(g)
    }

    /// An iterator (a snapshot) over the currently unknown pages: every
    /// name whose slot is still empty, with its identifier, in
    /// lexicographically sorted name order.
    #[verifier::rlimit(100)]
    pub fn iter_unknown_pages(&self) -> (it: UnknownPageIter)
        requires
            self.wf(),
        ensures
            it.wf(),
            it.pos == 0,
            unknown_entries_of(it.entries@, *self),
    {
        let n = self.name_table.len();
        let mut entries: Vec<(String, PageId)> = Vec::new();
        let mut i: usize = 0;
        while i < n
            invariant
                self.wf(),
                i <= n,
                n == self.tbl().len(),
                forall|k: int|
                    0 <= k < entries@.len() ==> is_graph_entry(*self, #[trigger] entries@[k]),
                forall|k: int|
                    0 <= k < entries@.len() ==> (#[trigger] entries@[k]).1.0 < self.pgs().len()
                        && self.pgs()[entries@[k].1.0 as int] is None,
                forall|j: int|
                    0 <= j < i && self.pgs()[(#[trigger] self.tbl()[j]).1.0 as int] is None
                        ==> listed(entries@, self.tbl()[j].0@, self.tbl()[j].1),
                forall|k1: int, k2: int|
                    0 <= k1 < k2 < entries@.len() ==> #[trigger] lex_lt(
                        entries@[k1].0@,
                        entries@[k2].0@,
                    ),
                forall|k: int, j: int|
                    0 <= k < entries@.len() && i <= j < n ==> lex_lt(
                        (#[trigger] entries@[k]).0@,
                        (#[trigger] self.tbl()[j]).0@,
                    ),
            decreases n - i,
        {
            let ghost gi = i as int;
            let ghost old_entries = entries@;
            let row_id = self.name_table[i].1;
            if self.page_array[row_id.0].is_none() {
                let row_name = self.name_table[i].0.clone();
                entries.push((row_name, row_id));
                proof {
                    let last = entries@.len() - 1;
                    assert(entries@[last].0@ == self.tbl()[gi].0@);
                    assert(entries@[last].1 == self.tbl()[gi].1);
                    assert forall|k: int|
                        0 <= k < entries@.len() implies is_graph_entry(
                        *self,
                        #[trigger] entries@[k],
                    ) by {
                        if k < last {
                            assert(entries@[k] == old_entries[k]);
                            assert(is_graph_entry(*self, old_entries[k]));
                        } else {
                            assert(entries@[k].0@ == self.tbl()[gi].0@ && entries@[k].1
                                == self.tbl()[gi].1);
                        }
                    }
                    assert forall|j: int|
                        0 <= j < gi + 1 && self.pgs()[(#[trigger] self.tbl()[j]).1.0 as int]
                            is None implies listed(entries@, self.tbl()[j].0@, self.tbl()[j].1) by {
                        if j < gi {
                            assert(listed(old_entries, self.tbl()[j].0@, self.tbl()[j].1));
                            let k = choose|k: int|
                                0 <= k < old_entries.len() && (#[trigger] old_entries[k]).0@
                                    == self.tbl()[j].0@ && old_entries[k].1 == self.tbl()[j].1;
                            assert(entries@[k].0@ == self.tbl()[j].0@);
                        } else {
                            assert(entries@[last].0@ == self.tbl()[j].0@);
                        }
                    }
                    assert forall|k1: int, k2: int|
                        0 <= k1 < k2 < entries@.len() implies #[trigger] lex_lt(
                        entries@[k1].0@,
                        entries@[k2].0@,
                    ) by {
                        if k2 < last {
                            assert(entries@[k1] == old_entries[k1]);
                            assert(entries@[k2] == old_entries[k2]);
                        } else {
                            assert(entries@[k1] == old_entries[k1]);
                            assert(lex_lt(old_entries[k1].0@, self.tbl()[gi].0@));
                        }
                    }
                    assert forall|k: int, j: int|
                        0 <= k < entries@.len() && gi + 1 <= j < n implies lex_lt(
                        (#[trigger] entries@[k]).0@,
                        (#[trigger] self.tbl()[j]).0@,
                    ) by {
                        if k < last {
                            assert(entries@[k] == old_entries[k]);
                        } else {
                            assert(entries@[k].0@ == self.tbl()[gi].0@);
                            assert(lex_lt(self.tbl()[gi].0@, self.tbl()[j].0@));
                        }
                    }
                }
            } else {
                proof {
                    assert forall|j: int|
                        0 <= j < gi + 1 && self.pgs()[(#[trigger] self.tbl()[j]).1.0 as int]
                            is None implies listed(entries@, self.tbl()[j].0@, self.tbl()[j].1) by {
                        if j == gi {
                            assert(self.pgs()[self.tbl()[gi].1.0 as int] is Some);
                        }
                    }
                }
            }
            i += 1;
        }
        UnknownPageIter { entries, pos: 0 }
    }

    /// One step of the reference pass: the loop facts carry from state
    /// `pre` (before resolving link `k`) to state `cur` (after).
    proof fn lemma_ref_step(
        old_g: PageGraph,
        pre: PageGraph,
        cur: PageGraph,
        refs: Seq<Seq<char>>,
        k: int,
        old_ids: Seq<PageId>,
        ids: Seq<PageId>,
        id: PageId,
    )
        requires
            0 <= k < refs.len(),
            spec_add_names(old_g.name_map(), old_g.graph_len(), refs) == spec_add_names(
                pre.name_map(),
                pre.graph_len(),
                refs.skip(k),
            ),
            pre.graph_len() <= old_g.graph_len() + k,
            old_g.graph_len() <= pre.graph_len(),
            old_ids.len() == k,
            ids == old_ids.push(id),
            forall|m: int|
                0 <= m < k ==> pre.name_map().contains_key(#[trigger] refs[m]) && old_ids[m].0
                    as int == pre.name_map()[refs[m]],
            forall|n: Seq<char>|
                #[trigger] old_g.name_map().contains_key(n) ==> pre.name_map().contains_key(n)
                    && pre.name_map()[n] == old_g.name_map()[n],
            forall|id2: int| 0 <= id2 < old_g.graph_len() ==> pre.pgs()[id2] == old_g.pgs()[id2],
            forall|id2: int|
                old_g.graph_len() <= id2 < pre.graph_len() ==> pre.pgs()[id2] is None,
            cur.name_map().contains_key(refs[k]),
            id.0 as int == cur.name_map()[refs[k]],
            pre.name_map().contains_key(refs[k]) ==> cur == pre,
            !pre.name_map().contains_key(refs[k]) ==> id.0 as int == pre.graph_len()
                && cur.pgs() == pre.pgs().push(None::<Page>) && cur.name_map()
                == pre.name_map().insert(refs[k], pre.graph_len()),
        ensures
            spec_add_names(old_g.name_map(), old_g.graph_len(), refs) == spec_add_names(
                cur.name_map(),
                cur.graph_len(),
                refs.skip(k + 1),
            ),
            cur.graph_len() <= old_g.graph_len() + k + 1,
            old_g.graph_len() <= cur.graph_len(),
            forall|m: int|
                0 <= m < k + 1 ==> cur.name_map().contains_key(#[trigger] refs[m]) && ids[m].0
                    as int == cur.name_map()[refs[m]],
            forall|n: Seq<char>|
                #[trigger] old_g.name_map().contains_key(n) ==> cur.name_map().contains_key(n)
                    && cur.name_map()[n] == old_g.name_map()[n],
            forall|id2: int| 0 <= id2 < old_g.graph_len() ==> cur.pgs()[id2] == old_g.pgs()[id2],
            forall|id2: int|
                old_g.graph_len() <= id2 < cur.graph_len() ==> cur.pgs()[id2] is None,
    {
        assert(refs.skip(k)[0] == refs[k]);
        assert(refs.skip(k).skip(1) =~= refs.skip(k + 1));
        if pre.name_map().contains_key(refs[k]) {
            assert(spec_add_names(pre.name_map(), pre.graph_len(), refs.skip(k))
                == spec_add_names(cur.name_map(), cur.graph_len(), refs.skip(k + 1)));
        } else {
            assert(cur.graph_len() == pre.graph_len() + 1);
            assert(spec_add_names(pre.name_map(), pre.graph_len(), refs.skip(k))
                == spec_add_names(
                pre.name_map().insert(refs[k], pre.graph_len()),
                pre.graph_len() + 1,
                refs.skip(k + 1),
            ));
        }
        assert forall|n: Seq<char>|
            #[trigger] old_g.name_map().contains_key(n) implies cur.name_map().contains_key(n)
            && cur.name_map()[n] == old_g.name_map()[n] by {
            assert(pre.name_map().contains_key(n));
            if !pre.name_map().contains_key(refs[k]) {
                assert(n != refs[k]);
            }
        }
        assert forall|m: int|
            0 <= m < k + 1 implies cur.name_map().contains_key(#[trigger] refs[m]) && ids[m].0
            as int == cur.name_map()[refs[m]] by {
            if m < k {
                assert(ids[m] == old_ids[m]);
                assert(pre.name_map().contains_key(refs[m]));
                assert(old_ids[m].0 as int == pre.name_map()[refs[m]]);
                if !pre.name_map().contains_key(refs[k]) {
                    assert(refs[m] != refs[k]);
                }
            } else {
                assert(ids[m] == id);
            }
        }
        assert forall|id2: int|
            old_g.graph_len() <= id2 < cur.graph_len() implies cur.pgs()[id2] is None by {
            if id2 < pre.graph_len() {
                assert(cur.pgs()[id2] == pre.pgs()[id2]);
            }
        }
        assert forall|id2: int|
            0 <= id2 < old_g.graph_len() implies cur.pgs()[id2] == old_g.pgs()[id2] by {
            assert(pre.pgs()[id2] == old_g.pgs()[id2]);
        }
    }

    /// Resolve or create identifiers for every link target, then fill the
    /// slot of `name` with a page holding those identifiers, in order.
    /// Returns `None` (and fills nothing) when the slot of `name` was
    /// already filled; otherwise returns the page's identifier and whether
    /// the name was already present in the name table before this call
    /// began (`false` for an entirely new name, even one that also appears
    /// among its own link targets).
    #[verifier::rlimit(80)]
    pub fn insert_page(&mut self, name: &str, reference_names: Vec<&str>) -> (r: Option<
        (PageId, bool),
    >)
        requires
            old(self).wf(),
            old(self).graph_len() + reference_names@.len() + 1 <= usize::MAX,
        ensures
            final(self).wf(),
            ({
                let oldg = *old(self);
                let newg = *final(self);
                let refs = views_of_strs(reference_names@);
                let tm = spec_add_names(oldg.name_map(), oldg.graph_len(), refs).0;
                let next = spec_add_names(oldg.name_map(), oldg.graph_len(), refs).1;
                &&& (r is None <==> oldg.is_known(name@))
                &&& (r is None ==> {
                    &&& newg.name_map() == tm
                    &&& newg.graph_len() == next
                    &&& forall|id: int|
                        0 <= id < oldg.graph_len() ==> newg.pgs()[id] == oldg.pgs()[id]
                    &&& forall|id: int| oldg.graph_len() <= id < next ==> newg.pgs()[id] is None
                })
                &&& (r matches Some(pr) ==> {
                    let tm2 = if tm.contains_key(name@) {
                        tm
                    } else {
                        tm.insert(name@, next)
                    };
                    let next2 = if tm.contains_key(name@) {
                        next
                    } else {
                        next + 1
                    };
                    let pid = (pr.0).0 as int;
                    &&& pr.1 == oldg.name_map().contains_key(name@)
                    &&& tm2.contains_key(name@) && pid == tm2[name@]
                    &&& newg.name_map() == tm2
                    &&& newg.graph_len() == next2
                    &&& forall|id: int|
                        0 <= id < oldg.graph_len() && id != pid ==> newg.pgs()[id] == oldg.pgs()[
                            id
                        ]
                    &&& forall|id: int|
                        oldg.graph_len() <= id < next2 && id != pid ==> newg.pgs()[id] is None
                    &&& newg.pgs()[pid] matches Some(p) && p.name@ == name@ && p.referenced@.len()
                        == refs.len() && (forall|k: int|
                        0 <= k < refs.len() ==> (#[trigger] p.referenced@[k]).0 as int
                            == tm[refs[k]])
                })
            }),
    {
        let ghost old_g = *old(self);
        let ghost refs = views_of_strs(reference_names@);
        let (pos0, existed_before) = self.find_position(name);
        proof {
            if existed_before {
                self.lemma_row_map(pos0 as int);
            }
            assert(existed_before == old_g.name_map().contains_key(name@));
        }
        let mut ids: Vec<PageId> = Vec::new();
        let mut k: usize = 0;
        let refs_len = reference_names.len();
        proof {
            assert(refs.skip(0) =~= refs);
        }
        while k < refs_len
            invariant
                self.wf(),
                k <= refs_len,
                refs_len == reference_names@.len(),
                refs == views_of_strs(reference_names@),
                refs.len() == refs_len,
                old_g.wf(),
                old_g.graph_len() + refs_len + 1 <= usize::MAX,
                ids@.len() == k,
                spec_add_names(old_g.name_map(), old_g.graph_len(), refs) == spec_add_names(
                    self.name_map(),
                    self.graph_len(),
                    refs.skip(k as int),
                ),
                self.graph_len() <= old_g.graph_len() + k,
                old_g.graph_len() <= self.graph_len(),
                forall|m: int|
                    0 <= m < k ==> self.name_map().contains_key(#[trigger] refs[m])
                        && ids@[m].0 as int == self.name_map()[refs[m]],
                forall|n: Seq<char>|
                    #[trigger] old_g.name_map().contains_key(n) ==> self.name_map().contains_key(n)
                        && self.name_map()[n] == old_g.name_map()[n],
                forall|id: int|
                    0 <= id < old_g.graph_len() ==> self.pgs()[id] == old_g.pgs()[id],
                forall|id: int|
                    old_g.graph_len() <= id < self.graph_len() ==> self.pgs()[id] is None,
            decreases refs_len - k,
        {
            let ghost pre = *self;
            let ghost old_ids = ids@;
            proof {
                assert(self.graph_len() < usize::MAX);
            }
            let id = self.get_page_id_or_insert_empty(reference_names[k]);
            ids.push(id);
            proof {
                assert(refs[k as int] == reference_names@[k as int]@);
                Self::lemma_ref_step(old_g, pre, *self, refs, k as int, old_ids, ids@, id);
            }
            k += 1;
        }
        proof {
            assert(refs.skip(refs_len as int) =~= Seq::<Seq<char>>::empty());
            assert(spec_add_names(old_g.name_map(), old_g.graph_len(), refs) == (
                self.name_map(),
                self.graph_len(),
            ));
        }
        proof {
            assert forall|m: int| 0 <= m < refs.len() implies 0 <= self.name_map()[#[trigger] refs[m]]
                < self.graph_len() by {
                self.lemma_map_ids_in_range(refs[m]);
            }
        }
        let (pos, found) = self.find_position(name);
        if found {
            proof {
                self.lemma_row_map(pos as int);
            }
            let pid = self.name_table[pos].1;
            if self.page_array[pid.0].is_some() {
                proof {
                    self.lemma_already_known(old_g, name@, refs);
                }
                return None;
            }
            let ghost pre = *self;
            let ghost gids = ids@;
            proof {
                assert forall|m: int|
                    0 <= m < gids.len() implies (#[trigger] gids[m]).0 < self.pgs().len() by {
                    assert(self.name_map().contains_key(#[trigger] refs[m]));
                    assert(gids[m].0 as int == self.name_map()[refs[m]]);
                    assert(0 <= self.name_map()[refs[m]] < self.graph_len());
                }
            }
            let page = Page { name: name.to_owned(), referenced: ids };
            self.page_array[pid.0] = Some(page);
            proof {
                assert(self.tbl() == pre.tbl());
                assert(self.table_view() == pre.table_view());
                self.lemma_wf_after_fill(pre, pos as int, pid.0 as int, name@);
                Self::lemma_not_known_old(pre, old_g, name@);
            }
            return Some((pid, existed_before));
        }
        let id = PageId(self.page_array.len());
        let ghost pre = *self;
        let ghost gids = ids@;
        proof {
            assert forall|m: int|
                0 <= m < gids.len() implies (#[trigger] gids[m]).0 < pre.pgs().len() by {
                assert(self.name_map().contains_key(#[trigger] refs[m]));
                assert(gids[m].0 as int == self.name_map()[refs[m]]);
                assert(0 <= self.name_map()[refs[m]] < self.graph_len());
            }
        }
        let page = Page { name: name.to_owned(), referenced: ids };
        let pair = (name.to_owned(), id);
        let ghost gpair = pair;
        self.name_table.insert(pos, pair);
        self.page_array.push(Some(page));
        proof {
            pre.tbl().insert_ensures(pos as int, gpair);
            self.lemma_view_after_insert(pre, pos as int, name@, id.0 as int);
            Self::lemma_table_insert(pre.table_view(), pos as int, name@, id.0 as int);
            assert(self.name_map() == pre.name_map().insert(name@, pre.graph_len()));
            self.lemma_wf_after_append_row(pre, pos as int, name@);
            self.lemma_row_map(pos as int);
            if old_g.name_map().contains_key(name@) {
                assert(pre.name_map().contains_key(name@));
            }
        }
        Some((id, existed_before))
    }

    /// After the reference pass, a name whose slot is filled was known,
    /// with a filled slot, before the call began.
    proof fn lemma_already_known(self, old_g: PageGraph, name: Seq<char>, refs: Seq<Seq<char>>)
        requires
            self.wf(),
            old_g.wf(),
            self.name_map().contains_key(name),
            0 <= self.name_map()[name] < self.graph_len(),
            self.pgs()[self.name_map()[name]] is Some,
            forall|n: Seq<char>|
                #[trigger] old_g.name_map().contains_key(n) ==> self.name_map().contains_key(n)
                    && self.name_map()[n] == old_g.name_map()[n],
            forall|id: int| 0 <= id < old_g.graph_len() ==> self.pgs()[id] == old_g.pgs()[id],
            forall|id: int| old_g.graph_len() <= id < self.graph_len() ==> self.pgs()[id] is None,
            spec_add_names(old_g.name_map(), old_g.graph_len(), refs) == (
                self.name_map(),
                self.graph_len(),
            ),
        ensures
            old_g.is_known(name),
    {
        let id = self.name_map()[name];
        if !old_g.name_map().contains_key(name) {
            lemma_add_names_fresh_range(old_g.name_map(), old_g.graph_len(), refs, name);
            assert(self.pgs()[id] is None);
            assert(false);
        }
        old_g.lemma_map_ids_in_range(name);
        assert(self.pgs()[id] == old_g.pgs()[id]);
    }

    /// A name whose slot is still empty after the reference pass was not
    /// known before the call began.
    proof fn lemma_not_known_old(pre: PageGraph, old_g: PageGraph, name: Seq<char>)
        requires
            old_g.wf(),
            forall|n: Seq<char>|
                #[trigger] old_g.name_map().contains_key(n) ==> pre.name_map().contains_key(n)
                    && pre.name_map()[n] == old_g.name_map()[n],
            forall|id: int| 0 <= id < old_g.graph_len() ==> pre.pgs()[id] == old_g.pgs()[id],
            pre.name_map().contains_key(name),
            0 <= pre.name_map()[name] < pre.pgs().len(),
            pre.pgs()[pre.name_map()[name]] is None,
        ensures
            !old_g.is_known(name),
    {
        if old_g.name_map().contains_key(name) {
            old_g.lemma_map_ids_in_range(name);
        }
    }

    /// Well-formedness is preserved by filling one empty slot with a page
    /// whose name matches its row and whose references are valid.
    proof fn lemma_wf_after_fill(self, pre: PageGraph, pos: int, id: int, name: Seq<char>)
        requires
            pre.wf(),
            0 <= pos < pre.tbl().len(),
            pre.tbl()[pos].0@ == name,
            pre.tbl()[pos].1.0 as int == id,
            0 <= id < pre.pgs().len(),
            self.tbl() == pre.tbl(),
            self.pgs().len() == pre.pgs().len(),
            forall|j: int| 0 <= j < pre.pgs().len() && j != id ==> self.pgs()[j] == pre.pgs()[j],
            self.pgs()[id] matches Some(p) && p.name@ == name && (forall|k: int|
                0 <= k < p.referenced@.len() ==> (#[trigger] p.referenced@[k]).0
                    < self.pgs().len()),
        ensures
            self.wf(),
    {
        assert forall|i: int|
            0 <= i < self.tbl().len() implies ((#[trigger] self.pgs()[self.tbl()[i].1.0 as int])
            matches Some(p) ==> p.name@ == self.tbl()[i].0@) by {
            if self.tbl()[i].1.0 as int == id {
                if i != pos {
                    assert(pre.tbl()[i].1.0 != pre.tbl()[pos].1.0);
                    assert(false);
                }
            }
        }
        assert forall|j: int|
            0 <= j < self.pgs().len() implies ((#[trigger] self.pgs()[j]) matches Some(p)
                ==> forall|k: int|
                0 <= k < p.referenced@.len() ==> (#[trigger] p.referenced@[k]).0
                    < self.pgs().len()) by {
            if j != id {
                assert(self.pgs()[j] == pre.pgs()[j]);
                assert(pre.pgs()[j] matches Some(p) ==> forall|k: int|
                    0 <= k < p.referenced@.len() ==> (#[trigger] p.referenced@[k]).0
                        < pre.pgs().len());
            }
        }
        assert forall|j: int| 0 <= j < self.pgs().len() implies #[trigger] self.has_row_for(
            j,
        ) by {
            assert(pre.has_row_for(j));
            let i = choose|i: int| 0 <= i < pre.tbl().len() && (#[trigger] pre.tbl()[i]).1.0 == j;
            assert(self.tbl()[i].1.0 == j);
        }
    }

}

/// The persisted form of a graph: the name table as (name, identifier)
/// pairs in name order, and one entry per identifier, `None` for a
/// placeholder and the ordered link identifiers for a filled slot.
pub struct GraphData {
    pub name_table: Vec<(String, u64)>,
    pub pages: Vec<Option<Vec<u64>>>,
}

/// While decoding, row `m`'s slot agrees with the data: filled exactly
/// when the data has a link list there, with that row's name and with
/// link identifiers equal to the data's, all below `n`.
pub open spec fn decode_row_ok(
    tbl: Seq<(String, u64)>,
    pgs: Seq<Option<Vec<u64>>>,
    pa: Seq<Option<Page>>,
    m: int,
    n: int,
) -> bool {
    let y = tbl[m].1 as int;
    &&& (pa[y] is Some <==> pgs[y] is Some)
    &&& (pa[y] matches Some(p) ==> p.name@ == tbl[m].0@ && (pgs[y] matches Some(refs)
        && p.referenced@.len() == refs@.len() && (forall|k: int|
        0 <= k < refs@.len() ==> ((#[trigger] p.referenced@[k]).0 as int == refs@[k] as int) && (
        refs@[k] as int) < n)))
}

/// Some pair of `d`'s name table carries identifier `id`.
pub open spec fn data_has_row_for(d: GraphData, id: int) -> bool {
    exists|i: int|
        0 <= i < d.name_table@.len() && (#[trigger] d.name_table@[i]).1 as int == id
}

/// `d` decodes to a graph: one name per identifier and conversely, names
/// strictly sorted, and every identifier in range.
pub open spec fn spec_data_valid(d: GraphData) -> bool {
    let tbl = d.name_table@;
    let pgs = d.pages@;
    &&& tbl.len() == pgs.len()
    &&& forall|i: int, j: int|
        0 <= i < j < tbl.len() ==> #[trigger] lex_lt(tbl[i].0@, tbl[j].0@)
    &&& forall|i: int| 0 <= i < tbl.len() ==> (#[trigger] tbl[i].1) < pgs.len()
    &&& forall|i: int, j: int|
        0 <= i < tbl.len() && 0 <= j < tbl.len() && i != j ==> (#[trigger] tbl[i].1) != (
        #[trigger] tbl[j].1)
    &&& forall|id: int| 0 <= id < pgs.len() ==> #[trigger] data_has_row_for(d, id)
    &&& forall|id: int|
        0 <= id < pgs.len() ==> ((#[trigger] pgs[id]) matches Some(refs) ==> forall|k: int|
            0 <= k < refs@.len() ==> (#[trigger] refs@[k]) < pgs.len())
}

/// The graph `g` and the data `d` carry the same content: equal name
/// tables and, slot by slot, equal link lists.
pub open spec fn spec_data_matches(g: PageGraph, d: GraphData) -> bool {
    let tbl = d.name_table@;
    let pgs = d.pages@;
    &&& g.tbl().len() == tbl.len()
    &&& forall|i: int|
        0 <= i < tbl.len() ==> (#[trigger] g.tbl()[i]).0@ == tbl[i].0@ && g.tbl()[i].1.0 as u64
            == tbl[i].1
    &&& g.pgs().len() == pgs.len()
    &&& forall|id: int|
        0 <= id < pgs.len() ==> ((#[trigger] g.pgs()[id]) is Some <==> pgs[id] is Some)
    &&& forall|id: int|
        0 <= id < pgs.len() ==> ((#[trigger] g.pgs()[id]) matches Some(p) ==> (pgs[id] matches Some(
            refs,
        ) && p.referenced@.len() == refs@.len() && (forall|k: int|
            0 <= k < refs@.len() ==> (#[trigger] p.referenced@[k]).0 as u64 == refs@[k])))
}

/// The pair `e` is a row of `g`'s name table.
pub open spec fn is_graph_entry(g: PageGraph, e: (String, PageId)) -> bool {
    exists|j: int|
        0 <= j < g.tbl().len() && e.0@ == (#[trigger] g.tbl()[j]).0@ && e.1 == g.tbl()[j].1
}

/// Some entry of `entries` carries this name and identifier.
pub open spec fn listed(entries: Seq<(String, PageId)>, name: Seq<char>, id: PageId) -> bool {
    exists|k: int|
        0 <= k < entries.len() && (#[trigger] entries[k]).0@ == name && entries[k].1 == id
}

/// `entries` lists exactly the unknown pages of `g`: each entry is a name
/// of `g` whose slot is empty, with its identifier; every such name of
/// `g` is listed; and the entries are strictly sorted by name.
pub open spec fn unknown_entries_of(entries: Seq<(String, PageId)>, g: PageGraph) -> bool {
    &&& forall|k: int| 0 <= k < entries.len() ==> is_graph_entry(g, #[trigger] entries[k])
    &&& forall|k: int|
        0 <= k < entries.len() ==> (#[trigger] entries[k]).1.0 < g.pgs().len()
            && g.pgs()[entries[k].1.0 as int] is None
    &&& forall|j: int|
        0 <= j < g.tbl().len() && g.pgs()[(#[trigger] g.tbl()[j]).1.0 as int] is None ==> listed(
            entries,
            g.tbl()[j].0@,
            g.tbl()[j].1,
        )
    &&& forall|k1: int, k2: int|
        0 <= k1 < k2 < entries.len() ==> #[trigger] lex_lt(entries[k1].0@, entries[k2].0@)
}

/// A snapshot iterator over the unknown pages of a graph, in sorted name
/// order.
pub struct UnknownPageIter {
    pub entries: Vec<(String, PageId)>,
    pub pos: usize,
}

impl UnknownPageIter {
    /// The iterator has not run past its snapshot.
    pub open spec fn wf(self) -> bool {
        self.pos <= self.entries@.len()
    }

    /// The entries not yet produced.
    pub open spec fn remaining(self) -> Seq<(String, PageId)> {
        self.entries@.skip(self.pos as int)
    }

    /// Produce the next unknown page, or `None` when the snapshot is
    /// exhausted.
    pub fn next(&mut self) -> (r: Option<(String, PageId)>)
        requires
            old(self).wf(),
        ensures
            final(self).wf(),
            final(self).entries == old(self).entries,
            old(self).pos == old(self).entries@.len() ==> r is None && *final(self) == *old(self),
            old(self).pos < old(self).entries@.len() ==> {
                &&& final(self).pos == old(self).pos + 1
                &&& r matches Some(e) && e.0@ == old(self).entries@[old(self).pos as int].0@ && e.1
                    == old(self).entries@[old(self).pos as int].1
            },
    {
        if self.pos < self.entries.len() {
            let e = &self.entries[self.pos];
            let out = (e.0.clone(), e.1);
            self.pos += 1;
            Some(out)
        } else {
            None
        }
    }
}

} // verus!
