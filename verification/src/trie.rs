//! A prefix tree over region codes. Each node stands for two digits of a
//! code: the children of the root are the provinces, theirs the cities, and
//! theirs the counties.
//!
//! A node holds the unit whose code its path spells, once that unit has been
//! inserted. A node that was made only on the way to a deeper unit holds
//! nothing yet, and takes its unit when it comes.

use vstd::prelude::*;
use std::collections::HashMap;
use crate::code::{code_segments, is_region_code, parse_region_code, parsed_code, RegionCode};
use crate::name::{join_names, level_names};
use crate::{joined, outcome_view, texts, RegionError, RegionItem, RegionItemView};

verus! {

/// What a node of the tree holds of its unit: the name of the unit and the
/// year in which its code was retired, or 0.
#[derive(Debug)]
pub struct RegionNameItem {
    text: String,
    discard_year: u32,
}

impl View for RegionNameItem {
    type V = (Seq<char>, u32);

    closed spec fn view(&self) -> (Seq<char>, u32) {
        (self.text@, self.discard_year)
    }
}

impl Clone for RegionNameItem {
    fn clone(&self) -> (copy: Self)
        ensures
            copy@ == self@,
    {
        Self { text: self.text.clone(), discard_year: self.discard_year }
    }
}

impl Default for RegionNameItem {
    fn default() -> (item: Self)
        ensures
            item@ == (Seq::<char>::empty(), 0u32),
    {
        Self { text: String::new(), discard_year: 0 }
    }
}

impl RegionNameItem {
    /// An item with the given name and year.
    pub fn new(text: String, discard_year: u32) -> (item: Self)
        ensures
            item@ == (text@, discard_year),
    {
        Self { text, discard_year }
    }
}

/// A node of the tree with the nodes below it, each under the two digits
/// that lead to it. The node holds its unit, or nothing while its unit has
/// not been inserted.
#[derive(Debug)]
pub struct RegionNode {
    children: HashMap<u8, RegionNode>,
    item: Option<RegionNameItem>,
}

/// The view of what a node holds.
pub open spec fn item_view(item: Option<RegionNameItem>) -> Option<(Seq<char>, u32)> {
    match item {
        Some(unit) => Some(unit@),
        None => None,
    }
}

impl RegionNode {
    /// What the node holds: its unit, or `None` while it has none.
    pub closed spec fn item(self) -> Option<(Seq<char>, u32)> {
        item_view(self.item)
    }

    /// Whether the node has a child under `segment`.
    pub closed spec fn has_child(self, segment: u8) -> bool {
        self.children@.contains_key(segment)
    }

    /// The child under `segment`.
    pub closed spec fn child(self, segment: u8) -> RegionNode
        recommends
            self.has_child(segment),
    {
        self.children@[segment]
    }

    /// What the node reached from this one along `path` holds, or `None`
    /// where the path leaves the tree or is empty.
    pub open spec fn entry(self, path: Seq<u8>) -> Option<Option<(Seq<char>, u32)>>
        decreases path.len(),
    {
        if path.len() == 0 || !self.has_child(path[0]) {
            None
        } else if path.len() == 1 {
            Some(self.child(path[0]).item())
        } else {
            self.child(path[0]).entry(path.skip(1))
        }
    }

    /// A node without children that holds the unit `item`.
    pub fn new(item: RegionNameItem) -> (node: Self)
        ensures
            node.item() == Some(item@),
            forall|segment: u8| !node.has_child(segment),
    {
        RegionNode { children: HashMap::new(), item: Some(item) }
    }

    /// A node without children that holds no unit.
    pub fn vacant() -> (node: Self)
        ensures
            node.item() is None,
            forall|segment: u8| !node.has_child(segment),
    {
        RegionNode { children: HashMap::new(), item: None }
    }

    /// A copy of the node, with copies of the nodes below it.
    fn duplicate(&self) -> (copy: RegionNode)
        ensures
            copy.item() == self.item(),
            forall|path: Seq<u8>| copy.entry(path) == self.entry(path),
        decreases self,
    {
        broadcast use {
            vstd::std_specs::hash::group_hash_axioms,
            vstd::std_specs::hash::axiom_hashmap_decreases,
            vstd::map::axiom_map_index_decreases_finite,
        };

        let mut children: HashMap<u8, RegionNode> = HashMap::new();
        let iter = self.children.iter();
        #[verifier::loop_isolation(false)]
        for pair in it: iter
            invariant
                forall|i: int|
                    0 <= i < it.index() ==> {
                        let key = *(#[trigger] it.seq()[i]).0;
                        &&& children@.contains_key(key)
                        &&& children@[key].item() == self.children@[key].item()
                        &&& forall|path: Seq<u8>|
                            children@[key].entry(path) == self.children@[key].entry(path)
                    },
                forall|key: u8|
                    children@.contains_key(key) ==> exists|i: int|
                        0 <= i < it.index() && *(#[trigger] it.seq()[i]).0 == key,
        {
            let (segment, child) = pair;
            proof {
                assert(self.children@.contains_key(*segment));
                assert(self.children@[*segment] == *child);
                assert(decreases_to!(self.children => self.children@));
                assert(decreases_to!(self.children@ => self.children@[*segment]));
            }
            let copied = child.duplicate();
            children.insert(*segment, copied);
        }
        let item: Option<RegionNameItem> = match &self.item {
            Some(unit) => Some(unit.clone()),
            None => None,
        };
        let copy = RegionNode { children, item };
        proof {
            assert(forall|key: u8| copy.has_child(key) == self.has_child(key));
            assert forall|path: Seq<u8>| copy.entry(path) == self.entry(path) by {
                if path.len() > 0 && self.has_child(path[0]) {
                    assert(copy.child(path[0]).entry(path.skip(1)) == self.child(path[0]).entry(
                        path.skip(1),
                    ));
                }
            }
        }
        copy
    }

    /// A node without children has nothing below it.
    proof fn lemma_leaf_entries(self)
        requires
            forall|segment: u8| !self.has_child(segment),
        ensures
            forall|path: Seq<u8>| self.entry(path) is None,
    {
    }

    /// What lies below a node does not depend on what the node holds.
    proof fn lemma_entries_of_children(self, other: RegionNode)
        requires
            self.children == other.children,
        ensures
            forall|path: Seq<u8>| self.entry(path) == other.entry(path),
    {
    }

    /// Inserts a unit below this node, along `path` from `depth` on. The
    /// node at the end of the path takes the unit unless it holds one; a
    /// node that is missing on the way is made and holds nothing. All else
    /// stays as it is.
    #[verifier::rlimit(40)]
    fn insert_at(&mut self, path: &Vec<u8>, depth: usize, value: &String, discard_year: u32)
        requires
            depth <= path@.len(),
        ensures
            final(self).item() == old(self).item(),
            forall|q: Seq<u8>|
                #[trigger] final(self).entry(q) == inserted_entry(
                    old(self).entry(q),
                    q,
                    path@.skip(depth as int),
                    value@,
                    discard_year,
                ),
        decreases path@.len() - depth,
    {
        broadcast use vstd::std_specs::hash::group_hash_axioms;

        let ghost below = path@.skip(depth as int);
        if depth < path.len() {
            let segment: u8 = path[depth];
            let last: bool = depth + 1 == path.len();
            let ghost had = self.has_child(segment);
            let ghost found = self.child(segment);
            let mut child: RegionNode = match self.children.remove(&segment) {
                Some(c) => c,
                None => RegionNode::vacant(),
            };
            let ghost taken = child;
            if last && child.item.is_none() {
                child.item = Some(RegionNameItem::new(value.clone(), discard_year));
            }
            let ghost before = child;
            proof {
                if !had {
                    taken.lemma_leaf_entries();
                }
                before.lemma_entries_of_children(taken);
            }
            child.insert_at(path, depth + 1, value, discard_year);
            let ghost after = child;
            self.children.insert(segment, child);
            proof {
                assert(below.skip(1) =~= path@.skip(depth + 1));
                assert(below[0] == segment);
                assert forall|q: Seq<u8>|
                    #[trigger] self.entry(q) == inserted_entry(
                        old(self).entry(q),
                        q,
                        below,
                        value@,
                        discard_year,
                    ) by {
                    if q.len() > 0 {
                        if q[0] == segment {
                            lemma_prefix_step(q, below);
                            assert(self.has_child(segment));
                            assert(self.child(segment) == after);
                            if q.len() > 1 {
                                assert(after.entry(q.skip(1)) == inserted_entry(
                                    before.entry(q.skip(1)),
                                    q.skip(1),
                                    below.skip(1),
                                    value@,
                                    discard_year,
                                ));
                                if had {
                                    assert(old(self).entry(q) == found.entry(q.skip(1)));
                                }
                            } else {
                                assert(q.skip(1).len() == 0);
                                assert(q.is_prefix_of(below)) by {
                                    assert(q =~= below.subrange(0, 1));
                                }
                                assert(after.item() == before.item());
                            }
                        } else {
                            assert(q.is_prefix_of(below) ==> q[0] == below[0]);
                            assert(self.has_child(q[0]) == old(self).has_child(q[0]));
                            if self.has_child(q[0]) {
                                assert(self.child(q[0]) == old(self).child(q[0]));
                            }
                        }
                    }
                }
            }
        } else {
            assert(below.len() == 0);
        }
    }
}

impl Clone for RegionNode {
    fn clone(&self) -> (copy: Self)
        ensures
            copy.item() == self.item(),
            forall|path: Seq<u8>| copy.entry(path) == self.entry(path),
    {
        self.duplicate()
    }
}

/// What the node at `q` holds after the insertion of a unit along `path`,
/// where `before` is what it held: `None` for no node, `Some(None)` for a
/// node without a unit.
///
/// The node at the end of `path` holds the unit that was inserted, unless it
/// held a unit before: a code is inserted at most once. A node on the way
/// stays as it was, and is made without a unit where it was missing. Every
/// other node stays as it was.
pub open spec fn inserted_entry(
    before: Option<Option<(Seq<char>, u32)>>,
    q: Seq<u8>,
    path: Seq<u8>,
    text: Seq<char>,
    discard_year: u32,
) -> Option<Option<(Seq<char>, u32)>> {
    if q.len() > 0 && q.is_prefix_of(path) {
        if q.len() == path.len() {
            match before {
                Some(Some(unit)) => Some(Some(unit)),
                _ => Some(Some((text, discard_year))),
            }
        } else {
            match before {
                Some(held) => Some(held),
                None => Some(None),
            }
        }
    } else {
        before
    }
}

/// A path that starts like another is a part of it from its start exactly
/// when the same holds of both without their first segment.
pub proof fn lemma_prefix_step(q: Seq<u8>, path: Seq<u8>)
    requires
        q.len() > 0,
        path.len() > 0,
        q[0] == path[0],
    ensures
        q.is_prefix_of(path) <==> q.skip(1).is_prefix_of(path.skip(1)),
{
    if q.is_prefix_of(path) {
        assert(q.skip(1) =~= path.skip(1).subrange(0, q.len() - 1)) by {
            assert forall|i: int| 0 <= i < q.len() - 1 implies q.skip(1)[i] == path.skip(1)[i] by {
                assert(q[i + 1] == path.subrange(0, q.len() as int)[i + 1]);
            }
        }
    }
    if q.skip(1).is_prefix_of(path.skip(1)) {
        assert(q =~= path.subrange(0, q.len() as int)) by {
            assert forall|i: int| 0 <= i < q.len() implies q[i] == path[i] by {
                if i > 0 {
                    assert(q.skip(1)[i - 1] == path.skip(1).subrange(0, q.len() - 1)[i - 1]);
                }
            }
        }
    }
}

/// What the map `m` holds under `key`, if anything.
pub open spec fn map_entry<K, V>(m: Map<K, V>, key: K) -> Option<V> {
    if m.contains_key(key) {
        Some(m[key])
    } else {
        None
    }
}

/// The tree `m` after the insertion of a unit along `path`: see
/// [`inserted_entry`].
pub open spec fn trie_insert(
    m: Map<Seq<u8>, Option<(Seq<char>, u32)>>,
    path: Seq<u8>,
    text: Seq<char>,
    discard_year: u32,
) -> Map<Seq<u8>, Option<(Seq<char>, u32)>> {
    Map::new(
        |q: Seq<u8>| inserted_entry(map_entry(m, q), q, path, text, discard_year) is Some,
        |q: Seq<u8>| inserted_entry(map_entry(m, q), q, path, text, discard_year)->Some_0,
    )
}

/// The path under which a unit is inserted: the segments of its code
/// without the zero segments at the end. A text that is no region code has
/// no path, and so has the code of six zeros.
pub open spec fn insert_path(key: Seq<char>) -> Seq<u8> {
    if !is_region_code(key) {
        Seq::empty()
    } else {
        let code = code_segments(key);
        if code.county != 0 {
            seq![code.province, code.city, code.county]
        } else if code.city != 0 {
            seq![code.province, code.city]
        } else if code.province != 0 {
            seq![code.province]
        } else {
            Seq::empty()
        }
    }
}

/// The path along which a code is looked up: its segments in order, the
/// zero segments left out.
pub open spec fn search_path(code: RegionCode) -> Seq<u8> {
    let province = if code.province != 0 {
        seq![code.province]
    } else {
        Seq::empty()
    };
    let city = if code.city != 0 {
        seq![code.city]
    } else {
        Seq::empty()
    };
    let county = if code.county != 0 {
        seq![code.county]
    } else {
        Seq::empty()
    };
    province + city + county
}

/// How far `path` stays inside the tree `m`, given that it does so for its
/// first `k` segments: the length of the longest part of `path` from its
/// start all of whose parts are in `m`.
pub open spec fn matched_len(m: Map<Seq<u8>, Option<(Seq<char>, u32)>>, path: Seq<u8>, k: nat)
    -> nat
    decreases path.len() - k,
{
    if k < path.len() && m.contains_key(path.take(k as int + 1)) {
        matched_len(m, path, k + 1)
    } else {
        k
    }
}

/// The level that a node gives to an answer: the name and the year of its
/// unit, or an empty name and the year 0 where it holds no unit.
pub open spec fn level_of_node(held: Option<(Seq<char>, u32)>) -> (Seq<char>, u32) {
    match held {
        Some(unit) => unit,
        None => (Seq::empty(), 0u32),
    }
}

/// The levels of the nodes along `path`, from the first to the last one that
/// the tree `m` has.
pub open spec fn trie_levels(m: Map<Seq<u8>, Option<(Seq<char>, u32)>>, path: Seq<u8>) -> Seq<
    (Seq<char>, u32),
> {
    Seq::new(matched_len(m, path, 0), |i: int| level_of_node(m[path.take(i + 1)]))
}

/// The answer of the tree `m` for `code`: the names along the path of the
/// code as far as the tree goes, and the year of the last node reached.
pub open spec fn trie_search(m: Map<Seq<u8>, Option<(Seq<char>, u32)>>, code: Seq<char>)
    -> Result<RegionItemView, RegionError> {
    match parsed_code(code) {
        Err(e) => Err(e),
        Ok(query) => {
            let levels = trie_levels(m, search_path(query));
            if levels.len() == 0 {
                Err(RegionError::NotFound)
            } else {
                Ok(
                    RegionItemView {
                        region_code: code,
                        name: joined(level_names(levels)),
                        region_slice: level_names(levels),
                        discard_year: levels.last().1,
                    },
                )
            }
        },
    }
}

/// A prefix tree of region names, keyed by the two-digit segments of the
/// codes.
#[derive(Debug)]
pub struct RegionTrie {
    root: RegionNode,
}

impl View for RegionTrie {
    type V = Map<Seq<u8>, Option<(Seq<char>, u32)>>;

    closed spec fn view(&self) -> Map<Seq<u8>, Option<(Seq<char>, u32)>> {
        Map::new(
            |path: Seq<u8>| self.root.entry(path) is Some,
            |path: Seq<u8>| self.root.entry(path)->Some_0,
        )
    }
}

impl Clone for RegionTrie {
    fn clone(&self) -> (copy: Self)
        ensures
            copy@ == self@,
    {
        let copy = RegionTrie { root: self.root.clone() };
        assert(copy@ =~= self@);
        copy
    }
}

impl Default for RegionTrie {
    fn default() -> (trie: Self)
        ensures
            trie@ == Map::<Seq<u8>, Option<(Seq<char>, u32)>>::empty(),
    {
        Self::new()
    }
}

impl RegionTrie {
    /// The empty tree.
    pub fn new() -> (trie: Self)
        ensures
            trie@ == Map::<Seq<u8>, Option<(Seq<char>, u32)>>::empty(),
    {
        let root = RegionNode::vacant();
        proof {
            root.lemma_leaf_entries();
        }
        let trie = RegionTrie { root };
        assert(trie@ =~= Map::<Seq<u8>, Option<(Seq<char>, u32)>>::empty());
        trie
    }

    /// Inserts the unit with the code `key`, the name `value` and the year
    /// of retirement `discard_year`.
    ///
    /// The unit goes under the segments of its code, the zero segments at
    /// the end left out. Its node takes it whether the node is new or was
    /// made before on the way to a deeper unit; a node that holds a unit
    /// already keeps that unit. A node that is missing on the way is made,
    /// and holds no unit until its own is inserted. A key that is no region
    /// code changes nothing.
    pub fn insert(&mut self, key: String, value: String, discard_year: u32)
        ensures
            final(self)@ == trie_insert(old(self)@, insert_path(key@), value@, discard_year),
    {
        let mut path: Vec<u8> = Vec::new();
        match parse_region_code(key.as_str()) {
            Ok(code) => {
                if code.county != 0 {
                    path.push(code.province);
                    path.push(code.city);
                    path.push(code.county);
                } else if code.city != 0 {
                    path.push(code.province);
                    path.push(code.city);
                } else if code.province != 0 {
                    path.push(code.province);
                }
            },
            Err(_) => {},
        }
        assert(path@ =~= insert_path(key@));
        assert(path@.skip(0) =~= path@);
        self.root.insert_at(&path, 0, &value, discard_year);
        assert(self@ =~= trie_insert(old(self)@, insert_path(key@), value@, discard_year));
    }

    /// Looks `region_code` up: walks down the tree along the segments of
    /// the code that are not zero, as far as the tree goes.
    ///
    /// The answer holds the names of the units of the nodes passed,
    /// outermost first, with an empty name for a node without a unit, and
    /// the year of the last of them. A text that is no region code is
    /// refused as `InvalidInput`; a code whose first segment the tree lacks
    /// is `NotFound`.
    #[verifier::rlimit(40)]
    pub fn search(&self, region_code: &str) -> (r: Result<RegionItem, RegionError>)
        ensures
            outcome_view(r) == trie_search(self@, region_code@),
    {
        broadcast use vstd::std_specs::hash::group_hash_axioms;

        let query: RegionCode = match parse_region_code(region_code) {
            Ok(q) => q,
            Err(e) => {
                return Err(e);
            },
        };
        let mut path: Vec<u8> = Vec::new();
        if query.province != 0 {
            path.push(query.province);
        }
        if query.city != 0 {
            path.push(query.city);
        }
        if query.county != 0 {
            path.push(query.county);
        }
        assert(path@ =~= search_path(query));
        let mut node: &RegionNode = &self.root;
        let mut names: Vec<String> = Vec::new();
        let mut discard_year: u32 = 0;
        let mut i: usize = 0;
        let mut open: bool = true;
        assert(path@.take(0) =~= Seq::<u8>::empty());
        assert forall|q: Seq<u8>| q.len() > 0 implies node.entry(q) == self.root.entry(
            path@.take(0) + q,
        ) by {
            assert(path@.take(0) + q =~= q);
        }
        while open && i < path.len()
            invariant
                i <= path@.len(),
                names@.len() == i,
                forall|q: Seq<u8>|
                    q.len() > 0 ==> #[trigger] node.entry(q) == self.root.entry(
                        path@.take(i as int) + q,
                    ),
                forall|k: int| 0 <= k < i ==> self@.contains_key(#[trigger] path@.take(k + 1)),
                forall|k: int|
                    0 <= k < i ==> (#[trigger] names@[k])@ == level_of_node(
                        self@[path@.take(k + 1)],
                    ).0,
                i > 0 ==> discard_year == level_of_node(self@[path@.take(i as int)]).1,
                !open ==> !self@.contains_key(path@.take(i + 1)),
            decreases path@.len() - i + if open { 1int } else { 0int },
        {
            let segment: u8 = path[i];
            let ghost step = path@.take(i + 1);
            proof {
                assert(step =~= path@.take(i as int) + seq![segment]);
                assert(node.entry(seq![segment]) == self.root.entry(step));
            }
            match node.children.get(&segment) {
                Some(next) => {
                    proof {
                        assert(node.has_child(segment));
                        assert(node.child(segment) == *next);
                        assert forall|q: Seq<u8>| q.len() > 0 implies #[trigger] next.entry(q)
                            == self.root.entry(step + q) by {
                            let longer = seq![segment] + q;
                            assert(longer.skip(1) =~= q);
                            assert(node.entry(longer) == next.entry(q));
                            assert(path@.take(i as int) + longer =~= step + q);
                        }
                    }
                    match &next.item {
                        Some(unit) => {
                            names.push(unit.text.clone());
                            discard_year = unit.discard_year;
                        },
                        None => {
                            names.push(String::new());
                            discard_year = 0;
                        },
                    }
                    node = next;
                    i = i + 1;
                },
                None => {
                    assert(!node.has_child(segment));
                    open = false;
                },
            }
        }
        proof {
            lemma_matched_len(self@, path@, 0, i as nat);
            assert(texts(names@) =~= level_names(trie_levels(self@, path@)));
        }
        if names.len() == 0 {
            return Err(RegionError::NotFound);
        }
        let name: String = join_names(&names);
        Ok(RegionItem { region_code: region_code.to_owned(), name, region_slice: names, discard_year })
    }
}

/// Where the tree has every part of `path` up to `n` segments and lacks the
/// next one, or `path` ends there, the path stays inside for `n` segments.
pub proof fn lemma_matched_len(
    m: Map<Seq<u8>, Option<(Seq<char>, u32)>>,
    path: Seq<u8>,
    k: nat,
    n: nat,
)
    requires
        k <= n <= path.len(),
        forall|j: int| k <= j < n ==> m.contains_key(#[trigger] path.take(j + 1)),
        n < path.len() ==> !m.contains_key(path.take(n as int + 1)),
    ensures
        matched_len(m, path, k) == n,
    decreases n - k,
{
    if k < n {
        lemma_matched_len(m, path, k + 1, n);
    }
}

/// A path stays inside the tree at least as far as it is known to.
pub proof fn lemma_matched_len_grows(
    m: Map<Seq<u8>, Option<(Seq<char>, u32)>>,
    path: Seq<u8>,
    k: nat,
)
    requires
        k <= path.len(),
    ensures
        k <= matched_len(m, path, k) <= path.len(),
    decreases path.len() - k,
{
    if k < path.len() && m.contains_key(path.take(k as int + 1)) {
        lemma_matched_len_grows(m, path, k + 1);
    }
}

/// How many segments of `code` are not zero.
pub open spec fn nonzero_segments(code: RegionCode) -> nat {
    let province: nat = if code.province != 0 {
        1
    } else {
        0
    };
    let city: nat = if code.city != 0 {
        1
    } else {
        0
    };
    let county: nat = if code.county != 0 {
        1
    } else {
        0
    };
    province + city + county
}

/// Whether the tree `m` holds a unit under `path`.
pub open spec fn holds_unit(m: Map<Seq<u8>, Option<(Seq<char>, u32)>>, path: Seq<u8>) -> bool {
    m.contains_key(path) && m[path] is Some
}

/// A unit that has been inserted is found again.
///
/// Let `code` be a region code whose zero segments stand at its end, and
/// not all of whose segments are zero. After its insertion the search for
/// it succeeds and passes one level for each segment that is not zero. The
/// last level is the unit that was inserted, unless the tree held a unit
/// under its path before: then it is that one.
pub proof fn lemma_insert_then_search(
    m: Map<Seq<u8>, Option<(Seq<char>, u32)>>,
    code: Seq<char>,
    text: Seq<char>,
    discard_year: u32,
)
    requires
        is_region_code(code),
        code_segments(code).province != 0,
        code_segments(code).city == 0 ==> code_segments(code).county == 0,
    ensures
        ({
            let path = insert_path(code);
            let after = trie_insert(m, path, text, discard_year);
            &&& trie_search(after, code) matches Ok(item)
            &&& item.region_code == code
            &&& item.region_slice.len() == nonzero_segments(code_segments(code))
            &&& !holds_unit(m, path) ==> item.region_slice.last() == text && item.discard_year
                == discard_year
            &&& holds_unit(m, path) ==> item.region_slice.last() == m[path]->Some_0.0
                && item.discard_year == m[path]->Some_0.1
        }),
{
    let query = code_segments(code);
    let path = insert_path(code);
    let after = trie_insert(m, path, text, discard_year);
    assert(search_path(query) =~= path);
    assert forall|l: int| 0 <= l < path.len() implies after.contains_key(
        #[trigger] path.take(l + 1),
    ) by {
        let part = path.take(l + 1);
        assert(part.is_prefix_of(path)) by {
            assert(part =~= path.subrange(0, part.len() as int));
        }
    }
    lemma_matched_len(after, path, 0, path.len());
    assert(path.take(path.len() as int) =~= path);
    assert(path.is_prefix_of(path)) by {
        assert(path =~= path.subrange(0, path.len() as int));
    }
}

/// The order of two insertions does not matter to the units: whether a
/// unit is inserted before or after a unit below it, each of the two nodes
/// holds its own unit afterwards.
pub proof fn lemma_unit_after_deeper_unit(
    m: Map<Seq<u8>, Option<(Seq<char>, u32)>>,
    upper: Seq<u8>,
    lower: Seq<u8>,
    upper_unit: (Seq<char>, u32),
    lower_unit: (Seq<char>, u32),
)
    requires
        upper.len() > 0,
        upper.is_prefix_of(lower),
        upper.len() < lower.len(),
        !holds_unit(m, upper),
        !holds_unit(m, lower),
    ensures
        ({
            let first = trie_insert(m, lower, lower_unit.0, lower_unit.1);
            let second = trie_insert(first, upper, upper_unit.0, upper_unit.1);
            &&& map_entry(second, upper) == Some(Some(upper_unit))
            &&& map_entry(second, lower) == Some(Some(lower_unit))
        }),
{
    assert(lower.is_prefix_of(lower)) by {
        assert(lower =~= lower.subrange(0, lower.len() as int));
    }
    assert(upper.is_prefix_of(upper)) by {
        assert(upper =~= upper.subrange(0, upper.len() as int));
    }
    if lower.is_prefix_of(upper) {
        assert(lower.len() <= upper.len());
    }
}

/// A code is not found exactly where the tree lacks the first segment of
/// its path, or all its segments are zero; the search fails in no other
/// way.
pub proof fn lemma_search_not_found(
    m: Map<Seq<u8>, Option<(Seq<char>, u32)>>,
    code: Seq<char>,
)
    requires
        is_region_code(code),
    ensures
        trie_search(m, code) is Err <==> search_path(code_segments(code)).len() == 0
            || !m.contains_key(search_path(code_segments(code)).take(1)),
        trie_search(m, code) is Err ==> trie_search(m, code) == Err::<RegionItemView, RegionError>(
            RegionError::NotFound,
        ),
{
    let path = search_path(code_segments(code));
    if path.len() > 0 && m.contains_key(path.take(1)) {
        lemma_matched_len_grows(m, path, 1);
    }
}

/// A code is inserted at most once: a second insertion along the same path
/// changes nothing, whatever name and year it brings.
pub proof fn lemma_insert_twice(
    m: Map<Seq<u8>, Option<(Seq<char>, u32)>>,
    path: Seq<u8>,
    text: Seq<char>,
    discard_year: u32,
    other_text: Seq<char>,
    other_year: u32,
)
    ensures
        trie_insert(trie_insert(m, path, text, discard_year), path, other_text, other_year)
            == trie_insert(m, path, text, discard_year),
{
    let once = trie_insert(m, path, text, discard_year);
    let twice = trie_insert(once, path, other_text, other_year);
    assert(twice =~= once);
}

/// The code of a province, which ends in four zeros, is answered with one
/// level: what the node of the province holds.
pub proof fn lemma_province_code_one_level(
    m: Map<Seq<u8>, Option<(Seq<char>, u32)>>,
    code: Seq<char>,
)
    requires
        is_region_code(code),
        code_segments(code).city == 0,
        code_segments(code).county == 0,
    ensures
        trie_search(m, code) matches Ok(item) ==> {
            let level = level_of_node(m[seq![code_segments(code).province]]);
            &&& m.contains_key(seq![code_segments(code).province])
            &&& item.region_slice == seq![level.0]
            &&& item.name == level.0
            &&& item.discard_year == level.1
        },
{
    let path = search_path(code_segments(code));
    lemma_matched_len_grows(m, path, 0);
    if trie_search(m, code) is Ok {
        let levels = trie_levels(m, path);
        let level = level_of_node(m[path]);
        assert(path =~= seq![code_segments(code).province]);
        assert(path.take(1) =~= path);
        assert(level_names(levels) =~= seq![level.0]);
        assert(joined(level_names(levels)) =~= level.0) by {
            reveal_with_fuel(joined, 2);
            assert(level_names(levels).drop_last() =~= Seq::<Seq<char>>::empty());
            assert(Seq::<char>::empty() + level.0 =~= level.0);
        }
    }
}

/// The walk refuses exactly the texts that are no region codes as invalid
/// input.
pub proof fn lemma_search_invalid_input(
    m: Map<Seq<u8>, Option<(Seq<char>, u32)>>,
    code: Seq<char>,
)
    ensures
        trie_search(m, code) == Err::<RegionItemView, RegionError>(RegionError::InvalidInput)
            <==> !is_region_code(code),
{
}

} // verus!
