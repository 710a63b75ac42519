//! The crawl driver: link extraction from fetched page text, link-name
//! normalization, and the generation-based breadth-first bookkeeping.
//!
//! All disk and network work stays with the caller: it fetches page
//! content (through `PageStorage`'s load plan), hands the text to
//! `Explorer::process_page`, and persists the cache index and the graph
//! whenever `process_page` reports a checkpoint and at the end of every
//! generation.
use vstd::prelude::*;
use crate::page_graph::{PageGraph, views_of_strs};
use crate::page_storage::PageStorage;
use crate::text::{find_sub, find_str};
use crate::{CHECKPOINT_INTERVAL, GENERATION_CAP, checkpoint_due};

verus! {

/// The marker that opens the scanned region of a page.
pub open spec fn begin_marker() -> Seq<char> {
    "mw-parser-output"@
}

/// The marker that closes the scanned region of a page.
pub open spec fn end_marker() -> Seq<char> {
    "margin-top: 1.8em"@
}

/// The text that announces a link target inside the region.
pub open spec fn wiki_header() -> Seq<char> {
    "\"/wiki/"@
}

/// A link name normalized: anything from the first `:` on is dropped,
/// then anything from the first `#` on.
pub open spec fn spec_normalize_link(name: Seq<char>) -> Seq<char> {
    let n1 = match find_sub(name, seq![':']) {
        Option::None => name,
        Option::Some(i) => if 0 <= i <= name.len() {
            name.take(i)
        } else {
            name
        },
    };
    match find_sub(n1, seq!['#']) {
        Option::None => n1,
        Option::Some(i) => if 0 <= i <= n1.len() {
            n1.take(i)
        } else {
            n1
        },
    }
}

/// The normalized link names announced in `t`, in order: after each
/// header the text up to the next quote, the scan resuming right after
/// the header.
pub open spec fn spec_scan_links(t: Seq<char>) -> Seq<Seq<char>>
    decreases t.len(),
{
    match find_sub(t, wiki_header()) {
        Option::None => Seq::<Seq<char>>::empty(),
        Option::Some(i) => {
            if 0 <= i && i + wiki_header().len() <= t.len() && wiki_header().len() >= 1 {
                let after = t.skip(i + wiki_header().len());
                match find_sub(after, seq!['"']) {
                    Option::None => Seq::<Seq<char>>::empty(),
                    Option::Some(j) => {
                        if 0 <= j <= after.len() {
                            seq![spec_normalize_link(after.take(j))] + spec_scan_links(after)
                        } else {
                            Seq::<Seq<char>>::empty()
                        }
                    },
                }
            } else {
                Seq::<Seq<char>>::empty()
            }
        },
    }
}

/// The link names extracted from a whole page: the scan runs over the
/// text between the first begin marker and the first end marker; a page
/// without both markers, or whose end marker comes first, yields none.
pub open spec fn spec_extract_links(page: Seq<char>) -> Seq<Seq<char>> {
    match (find_sub(page, begin_marker()), find_sub(page, end_marker())) {
        (Option::Some(b), Option::Some(e)) => if 0 <= b <= e <= page.len() {
            spec_scan_links(page.subrange(b, e))
        } else {
            Seq::<Seq<char>>::empty()
        },
        _ => Seq::<Seq<char>>::empty(),
    }
}

/// A scan yields at most one name per header, so never more names than
/// characters.
pub proof fn lemma_scan_links_len(t: Seq<char>)
    ensures
        spec_scan_links(t).len() <= t.len(),
    decreases t.len(),
{
    match find_sub(t, wiki_header()) {
        Option::None => {},
        Option::Some(i) => {
            if 0 <= i && i + wiki_header().len() <= t.len() && wiki_header().len() >= 1 {
                let after = t.skip(i + wiki_header().len());
                lemma_scan_links_len(after);
            }
        },
    }
}

/// A page never yields more link names than it has characters.
pub proof fn lemma_extract_links_len(page: Seq<char>)
    ensures
        spec_extract_links(page).len() <= page.len(),
{
    match (find_sub(page, begin_marker()), find_sub(page, end_marker())) {
        (Option::Some(b), Option::Some(e)) => {
            if 0 <= b <= e <= page.len() {
                lemma_scan_links_len(page.subrange(b, e));
            }
        },
        _ => {},
    }
}

/// Normalize one link name: drop a namespace qualifier (from the first
/// `:`) and an anchor fragment (from the first `#`).
pub fn normalize_link_name(name: &str) -> (r: String)
    ensures
        r@ == spec_normalize_link(name@),
{
    proof {
        reveal_strlit(":");
        reveal_strlit("#");
        assert(":"@ =~= seq![':']);
        assert("#"@ =~= seq!['#']);
    }
    let n1: &str = match find_str(name, ":") {
        Some(i) => name.substring_char(0, i),
        None => name,
    };
    let n2: &str = match find_str(n1, "#") {
        Some(i) => n1.substring_char(0, i),
        None => n1,
    };
    proof {
        assert(n2@ == spec_normalize_link(name@));
    }
    n2.to_owned()
}

/// Extract every link target announced in the page's scanned region,
/// normalized, in order of appearance.
pub fn get_reference_names(page: &str) -> (r: Vec<String>)
    ensures
        r@.map_values(|s: String| s@) == spec_extract_links(page@),
{
    let mut result: Vec<String> = Vec::new();
    proof {
        assert(result@.map_values(|s: String| s@) =~= Seq::<Seq<char>>::empty());
    }
    let begin = find_str(page, "mw-parser-output");
    let end = find_str(page, "margin-top: 1.8em");
    let b: usize;
    let e: usize;
    match (begin, end) {
        (Some(bi), Some(ei)) => {
            b = bi;
            e = ei;
        },
        _ => {
            return result;
        },
    }
    if e < b {
        return result;
    }
    let mut text: &str = page.substring_char(b, e);
    let ghost region = page@.subrange(b as int, e as int);
    proof {
        assert(spec_extract_links(page@) == spec_scan_links(region));
    }
    loop
        invariant
            result@.map_values(|s: String| s@) + spec_scan_links(text@) == spec_scan_links(region),
        ensures
            spec_scan_links(text@) =~= Seq::<Seq<char>>::empty(),
        decreases text@.len(),
    {
        proof {
            reveal_strlit("\"/wiki/");
            reveal_strlit("\"");
            assert("\"/wiki/"@ =~= seq!['"', '/', 'w', 'i', 'k', 'i', '/']);
            assert("\""@ =~= seq!['"']);
        }
        let text_len = text.unicode_len();
        let hdr = "\"/wiki/";
        let hdr_len = hdr.unicode_len();
        let i: usize;
        match find_str(text, hdr) {
            None => {
                proof {
                    assert(spec_scan_links(text@) =~= Seq::<Seq<char>>::empty());
                }
                break ;
            },
            Some(pos) => {
                i = pos;
            },
        }
        let after: &str = text.substring_char(i + hdr_len, text_len);
        let j: usize;
        match find_str(after, "\"") {
            None => {
                proof {
                    assert(spec_scan_links(text@) =~= Seq::<Seq<char>>::empty());
                }
                break ;
            },
            Some(pos) => {
                j = pos;
            },
        }
        let name: &str = after.substring_char(0, j);
        let norm = normalize_link_name(name);
        let ghost old_result = result@;
        result.push(norm);
        proof {
            assert(name@ == after@.take(j as int));
            assert(spec_scan_links(text@) == seq![spec_normalize_link(after@.take(j as int))]
                + spec_scan_links(after@));
            assert(result@.map_values(|s: String| s@) =~= old_result.map_values(|s: String| s@)
                .push(spec_normalize_link(after@.take(j as int))));
            assert(result@.map_values(|s: String| s@) + spec_scan_links(after@)
                =~= old_result.map_values(|s: String| s@) + spec_scan_links(text@));
        }
        text = after;
    }
    proof {
        assert(result@.map_values(|s: String| s@) + spec_scan_links(text@) =~= result@.map_values(
            |s: String| s@,
        ));
    }
    result
}

/// The crawl driver's state: the cache index, the page graph, and the
/// two counters of the generation-based traversal.
pub struct Explorer {
    pub page_storage: PageStorage,
    pub page_graph: PageGraph,
    pub global_generation_index: usize,
    pub global_page_index: usize,
}

impl Explorer {
    /// Both owned components are well-formed.
    pub open spec fn wf(self) -> bool {
        self.page_storage.wf() && self.page_graph.wf()
    }

    /// A driver over the given (freshly created or reloaded) components,
    /// with both counters at zero.
    pub fn new(page_storage: PageStorage, page_graph: PageGraph) -> (e: Explorer)
        ensures
            e.page_storage == page_storage,
            e.page_graph == page_graph,
            e.global_generation_index == 0,
            e.global_page_index == 0,
    {
        Explorer { page_storage, page_graph, global_generation_index: 0, global_page_index: 0 }
    }

    /// The crawl stops once the generation counter reaches the cap.
    pub fn at_generation_cap(&self) -> (r: bool)
        ensures
            r == (self.global_generation_index >= GENERATION_CAP),
    {
        self.global_generation_index >= GENERATION_CAP
    }

    /// Process one frontier page: when content was loaded, record the
    /// page and its extracted links in the graph; count the page either
    /// way. Returns whether a mid-generation checkpoint is due, which is
    /// the case after every `CHECKPOINT_INTERVAL`-th processed page; the
    /// caller then persists the cache index and the graph.
    pub fn process_page(&mut self, page_name: &str, content: Option<&str>) -> (checkpoint: bool)
        requires
            old(self).wf(),
            old(self).global_page_index < usize::MAX,
            old(self).page_graph.graph_len() + (match content {
                Option::Some(c) => c@.len() as int,
                Option::None => 0,
            }) + 1 <= usize::MAX,
        ensures
            final(self).wf(),
            final(self).page_storage == old(self).page_storage,
            final(self).global_generation_index == old(self).global_generation_index,
            final(self).global_page_index == old(self).global_page_index + 1,
            checkpoint == (final(self).global_page_index % CHECKPOINT_INTERVAL == 0),
            content is None ==> final(self).page_graph == old(self).page_graph,
            content matches Some(c) ==> final(self).page_graph.is_known(page_name@),
            content matches Some(c) ==> ({
                let oldpg = old(self).page_graph;
                let newpg = final(self).page_graph;
                let refs = spec_extract_links(c@);
                let added = crate::page_graph::spec_add_names(
                    oldpg.name_map(),
                    oldpg.graph_len(),
                    refs,
                );
                &&& (oldpg.is_known(page_name@) ==> {
                    &&& newpg.name_map() == added.0
                    &&& newpg.graph_len() == added.1
                    &&& forall|id: int|
                        0 <= id < oldpg.graph_len() ==> newpg.pgs()[id] == oldpg.pgs()[id]
                    &&& forall|id: int|
                        oldpg.graph_len() <= id < added.1 ==> newpg.pgs()[id] is None
                })
                &&& (!oldpg.is_known(page_name@) ==> {
                    let tm2 = if added.0.contains_key(page_name@) {
                        added.0
                    } else {
                        added.0.insert(page_name@, added.1)
                    };
                    let next2 = if added.0.contains_key(page_name@) {
                        added.1
                    } else {
                        added.1 + 1
                    };
                    &&& newpg.name_map() == tm2
                    &&& newpg.graph_len() == next2
                    &&& tm2.contains_key(page_name@)
                    &&& forall|id: int|
                        0 <= id < oldpg.graph_len() && id != tm2[page_name@] ==> newpg.pgs()[id]
                            == oldpg.pgs()[id]
                    &&& forall|id: int|
                        oldpg.graph_len() <= id < next2 && id != tm2[page_name@]
                            ==> newpg.pgs()[id] is None
                    &&& newpg.pgs()[tm2[page_name@]] matches Some(p) && p.name@ == page_name@
                        && p.referenced@.len() == refs.len() && (forall|k: int|
                        0 <= k < refs.len() ==> (#[trigger] p.referenced@[k]).0 as int
                            == added.0[refs[k]])
                })
            }),
    {
        match content {
            Some(c) => {
                let names = get_reference_names(c);
                let mut refs: Vec<&str> = Vec::new();
                let n = names.len();
                let mut k: usize = 0;
                while k < n
                    invariant
                        k <= n,
                        n == names@.len(),
                        refs@.len() == k,
                        forall|m: int| 0 <= m < k ==> (#[trigger] refs@[m])@ == names@[m]@,
                    decreases n - k,
                {
                    refs.push(names[k].as_str());
                    k += 1;
                }
                proof {
                    assert(views_of_strs(refs@) =~= names@.map_values(|s: String| s@));
                    lemma_extract_links_len(c@);
                }
                let outcome = self.page_graph.insert_page(page_name, refs);
                proof {
                    let refs_v = spec_extract_links(c@);
                    assert(views_of_strs(refs@) == refs_v);
                    if outcome is None {
                        crate::page_graph::lemma_add_names_preserves(
                            old(self).page_graph.name_map(),
                            old(self).page_graph.graph_len(),
                            refs_v,
                            page_name@,
                        );
                        old(self).page_graph.lemma_map_ids_in_range(page_name@);
                        crate::page_graph::lemma_add_names_next_geq(
                            old(self).page_graph.name_map(),
                            old(self).page_graph.graph_len(),
                            refs_v,
                        );
                        assert(self.page_graph.is_known(page_name@));
                    } else {
                        let pr = outcome->Some_0;
                        let tm = crate::page_graph::spec_add_names(
                            old(self).page_graph.name_map(),
                            old(self).page_graph.graph_len(),
                            refs_v,
                        ).0;
                        let next = crate::page_graph::spec_add_names(
                            old(self).page_graph.name_map(),
                            old(self).page_graph.graph_len(),
                            refs_v,
                        ).1;
                        let tm2 = if tm.contains_key(page_name@) {
                            tm
                        } else {
                            tm.insert(page_name@, next)
                        };
                        assert(self.page_graph.name_map() == tm2);
                        assert(tm2.contains_key(page_name@));
                        assert((pr.0).0 as int == tm2[page_name@]);
                        assert(self.page_graph.pgs()[(pr.0).0 as int] is Some);
                        self.page_graph.lemma_map_ids_in_range(page_name@);
                        assert(self.page_graph.is_known(page_name@));
                    }
                }
            },
            None => {},
        }
        self.global_page_index = self.global_page_index + 1;
        checkpoint_due(self.global_page_index)
    }

    /// Close one generation: the caller has processed every frontier
    /// page and now persists the cache index and the graph; the
    /// generation counter advances.
    pub fn end_generation(&mut self)
        requires
            old(self).global_generation_index < usize::MAX,
        ensures
            final(self).page_storage == old(self).page_storage,
            final(self).page_graph == old(self).page_graph,
            final(self).global_page_index == old(self).global_page_index,
            final(self).global_generation_index == old(self).global_generation_index + 1,
    {
        self.global_generation_index = self.global_generation_index + 1;
    }
}

} // verus!
