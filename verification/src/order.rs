//! Orders the rules of dependency files so that each comes after the rules that
//! provide the modules it requires.

use std::borrow::Cow;
use vstd::prelude::*;
use crate::r5::{clone_cow_str, cow_as_str, DepInfo, DepInfoModel};
use crate::string::Utf8Path;
use crate::stream::{bytes_eq, Model};

verus! {

/// The text of two strings is the same.
pub fn str_eq(a: &str, b: &str) -> (r: bool)
    ensures
        r == (a@ == b@),
{
    let x = a.as_bytes();
    let y = b.as_bytes();
    proof {
        vstd::utf8::encode_utf8_decode_utf8(a@);
        vstd::utf8::encode_utf8_decode_utf8(b@);
    }
    bytes_eq(x, y)
}

/// The modules that a rule provides, by logical name.
pub open spec fn provides_keys(n: DepInfoModel) -> Seq<Seq<char>> {
    n.provides.map_values(|p: crate::r5::ProvidedModel| p.desc.logical_name())
}

/// The modules that a rule requires, by logical name.
pub open spec fn requires_keys(n: DepInfoModel) -> Seq<Seq<char>> {
    n.requires.map_values(|r: crate::r5::RequiredModel| r.desc.logical_name())
}

/// What is known of a module: the rules, by number, that wait for it, once for
/// each time they require it; or that it was provided.
#[derive(Debug, Clone)]
pub enum Graph {
    Deps { deps: Vec<usize> },
    Done,
}

impl Default for Graph {
    fn default() -> (g: Self)
        ensures
            g matches Graph::Deps { deps } && deps@.len() == 0,
    {
        let deps = Vec::new();
        Graph::Deps { deps }
    }
}

/// A module, by logical name, and what is known of it.
#[derive(Debug)]
pub struct GraphEntry<'i> {
    pub key: Cow<'i, str>,
    pub graph: Graph,
}

/// The entry of the module `k` in `g` is marked provided.
pub open spec fn is_done<'i>(g: Seq<GraphEntry<'i>>, k: Seq<char>) -> bool {
    exists|j: int| 0 <= j < g.len() && g[j].key@ == k && g[j].graph is Done
}

/// `g` has an entry for the module `k`.
pub open spec fn has_entry<'i>(g: Seq<GraphEntry<'i>>, k: Seq<char>) -> bool {
    exists|j: int| 0 <= j < g.len() && g[j].key@ == k
}

/// No module has two entries in `g`.
pub open spec fn keys_distinct<'i>(g: Seq<GraphEntry<'i>>) -> bool {
    forall|a: int, b: int| 0 <= a < g.len() && 0 <= b < g.len() && a != b ==> g[a].key@ != g[b].key@
}

/// How many of the modules `req` are not yet provided according to `g`.
pub open spec fn waiting_on<'i>(req: Seq<Seq<char>>, g: Seq<GraphEntry<'i>>) -> nat
    decreases req.len(),
{
    if req.len() == 0 {
        0
    } else {
        waiting_on(req.drop_last(), g) + if is_done(g, req.last()) { 0nat } else { 1nat }
    }
}

/// How many times `x` occurs in `s`.
pub open spec fn occurrences<A>(s: Seq<A>, x: A) -> nat
    decreases s.len(),
{
    if s.len() == 0 {
        0
    } else {
        occurrences(s.drop_last(), x) + if s.last() == x { 1nat } else { 0nat }
    }
}

/// Finds the entry of the module `key` in `graph`.
pub fn find_entry<'i>(graph: &Vec<GraphEntry<'i>>, key: &str) -> (r: Option<usize>)
    ensures
        match r {
            Some(j) => j < graph@.len() && graph@[j as int].key@ == key@,
            None => !has_entry(graph@, key@),
        },
{
    let mut j: usize = 0;
    while j < graph.len()
        invariant
            j <= graph@.len(),
            forall|a: int| 0 <= a < j ==> graph@[a].key@ != key@,
        decreases graph@.len() - j,
    {
        if str_eq(cow_as_str(&graph[j].key), key) {
            return Some(j);
        }
        j = j + 1;
    }
    None
}

/// Why the rules could not be ordered.
#[derive(Debug)]
pub enum OrderError<'i, E> {
    /// Some rules require modules that no rule emitted so far provides, and no
    /// rule is left to read: the modules form a cycle, or a provider is missing.
    /// The graph is what was known of each module at that point.
    CycleOrIncomplete { graph: Vec<GraphEntry<'i>> },
    /// Reading the next rule failed.
    External(E),
}

/// How many of the rules numbered below `n` were not emitted yet and wait for a
/// module.
pub open spec fn num_waiting<'i>(arena: Seq<Option<DepInfo<'i>>>, counts: Seq<usize>, n: int) -> nat
    decreases n,
{
    if n <= 0 {
        0
    } else {
        num_waiting(arena, counts, n - 1) + if arena[n - 1] is Some && counts[n - 1] > 0 { 1nat } else { 0nat }
    }
}

/// Orders rules so that each comes after the rules that provide the modules it
/// requires. Rules are read in turn; a rule is emitted as soon as every module
/// it requires was provided by an emitted rule, and the rules that it releases
/// are emitted next, the last released first.
pub struct Order<'i, E> {
    /// The rules not read yet, the next one last.
    nodes: Vec<Result<DepInfo<'i>, E>>,
    /// Every rule read so far, by number; taken out once emitted.
    arena: Vec<Option<DepInfo<'i>>>,
    /// For each rule read, how many of the modules it requires are not yet
    /// provided.
    counts: Vec<usize>,
    /// What is known of each module.
    graph: Vec<GraphEntry<'i>>,
    /// The rules, by number, that are ready to be emitted.
    stack: Vec<usize>,
    /// How many rules wait for a module.
    solve: usize,
    /// The rules read so far, by number.
    read: Ghost<Seq<DepInfoModel>>,
    /// The rules emitted so far, by number, in the order of emission.
    history: Ghost<Seq<int>>,
}

impl<'i, E> Order<'i, E> {
    /// The rules not read yet, in the order they will be read.
    pub closed spec fn input(&self) -> Seq<Result<DepInfo<'i>, E>> {
        self.nodes@.reverse()
    }

    /// The rules read so far.
    pub closed spec fn read(&self) -> Seq<DepInfoModel> {
        self.read@
    }

    /// The rules emitted so far, in the order of emission.
    pub closed spec fn emitted(&self) -> Seq<DepInfoModel> {
        self.history@.map_values(|i: int| self.read@[i])
    }

    /// Some rule emitted so far provides the module `k`.
    pub open spec fn provided(&self, k: Seq<char>) -> bool {
        exists|t: int| 0 <= t < self.emitted().len() && provides_keys(self.emitted()[t]).contains(k)
    }

    /// The rules read so far, by number, that were not emitted yet.
    pub closed spec fn pending(&self) -> Set<int> {
        Set::new(|i: int| 0 <= i < self.read@.len() && !self.history@.contains(i))
    }

    /// The rules emitted so far each come after the rules that provide the
    /// modules they require.
    pub open spec fn in_dependency_order(&self) -> bool {
        forall|t: int, k: Seq<char>|
            0 <= t < self.emitted().len() && #[trigger] requires_keys(self.emitted()[t]).contains(k) ==> exists|u: int|
                0 <= u < t && #[trigger] provides_keys(self.emitted()[u]).contains(k)
    }

    /// The state is consistent: what the graph, the counts and the stack say
    /// agrees with the rules read and emitted, when the modules marked provided
    /// are those of `done` and the rules `rest` are still to be released, once
    /// for each module that they waited for and that was just provided.
    pub closed spec fn inv(&self, done: Set<Seq<char>>, rest: Seq<usize>) -> bool {
        let g = self.graph@;
        let n = self.read@.len();
        &&& n <= usize::MAX
        &&& self.arena@.len() == n
        &&& self.counts@.len() == n
        &&& forall|i: int| 0 <= i < n ==> (#[trigger] self.arena@[i] is Some <==> !self.history@.contains(i))
        &&& forall|i: int| 0 <= i < n && self.arena@[i] is Some ==> (#[trigger] self.arena@[i])->0.model() == self.read@[i]
        &&& forall|t: int| 0 <= t < self.history@.len() ==> 0 <= #[trigger] self.history@[t] < n
        &&& forall|t: int, u: int| 0 <= t < u < self.history@.len() ==> self.history@[t] != self.history@[u]
        &&& keys_distinct(g)
        &&& forall|k: Seq<char>| #[trigger] is_done(g, k) <==> done.contains(k)
        &&& forall|j: int, q: int|
            0 <= j < g.len() && g[j].graph is Deps && 0 <= q < g[j].graph->deps@.len() ==> {
                let i = #[trigger] g[j].graph->deps@[q] as int;
                &&& 0 <= i < n
                &&& self.arena@[i] is Some
            }
        &&& forall|q: int| 0 <= q < rest.len() ==> {
                let i = #[trigger] rest[q] as int;
                &&& 0 <= i < n
                &&& self.arena@[i] is Some
            }
        &&& forall|j: int, i: int|
            0 <= j < g.len() && g[j].graph is Deps && 0 <= i < n && #[trigger] self.arena@[i] is Some ==> occurrences(
                g[j].graph->deps@,
                i as usize,
            ) == occurrences(requires_keys(self.read@[i]), #[trigger] g[j].key@)
        &&& forall|i: int, k: Seq<char>|
            0 <= i < n && self.arena@[i] is Some && #[trigger] requires_keys(self.read@[i]).contains(k) ==> #[trigger] has_entry(g, k)
        &&& forall|i: int| 0 <= i < n && #[trigger] self.arena@[i] is Some ==> self.counts@[i] == waiting_on(requires_keys(self.read@[i]), g) + occurrences(rest, i as usize)
        &&& forall|t: int| 0 <= t < self.stack@.len() ==> {
            let i = #[trigger] self.stack@[t] as int;
            &&& 0 <= i < n
            &&& self.arena@[i] is Some
            &&& self.counts@[i] == 0
        }
        &&& forall|t: int, u: int| 0 <= t < u < self.stack@.len() ==> self.stack@[t] != self.stack@[u]
        &&& forall|i: int| 0 <= i < n && self.arena@[i] is Some && #[trigger] self.counts@[i] == 0 ==> self.stack@.contains(i as usize)
        &&& self.solve == num_waiting(self.arena@, self.counts@, n as int)
    }

    /// The modules that the rules emitted so far provide.
    pub closed spec fn provided_set(&self) -> Set<Seq<char>> {
        Set::new(|k: Seq<char>| self.provided(k))
    }

    /// The state is consistent, and the rules emitted so far are in dependency
    /// order.
    pub closed spec fn wf(&self) -> bool {
        &&& self.inv(self.provided_set(), Seq::empty())
        &&& self.in_dependency_order()
    }
}

pub proof fn lemma_occurrences_push<A>(s: Seq<A>, x: A, y: A)
    ensures
        occurrences(s.push(x), y) == occurrences(s, y) + if x == y { 1nat } else { 0nat },
{
    assert(s.push(x).drop_last() =~= s);
}

pub proof fn lemma_waiting_push(req: Seq<Seq<char>>, k: Seq<char>, g: Seq<GraphEntry>)
    ensures
        waiting_on(req.push(k), g) == waiting_on(req, g) + if is_done(g, k) { 0nat } else { 1nat },
{
    assert(req.push(k).drop_last() =~= req);
}

/// The count of modules not yet provided depends only on which are provided.
pub proof fn lemma_waiting_same_done(req: Seq<Seq<char>>, g1: Seq<GraphEntry>, g2: Seq<GraphEntry>)
    requires
        forall|k: Seq<char>| req.contains(k) ==> (is_done(g1, k) <==> is_done(g2, k)),
    ensures
        waiting_on(req, g1) == waiting_on(req, g2),
    decreases req.len(),
{
    if req.len() > 0 {
        assert(req.contains(req.last()));
        assert forall|k: Seq<char>| req.drop_last().contains(k) implies (is_done(g1, k) <==> is_done(g2, k)) by {
            let j = choose|j: int| 0 <= j < req.drop_last().len() && req.drop_last()[j] == k;
            assert(req[j] == k);
        }
        lemma_waiting_same_done(req.drop_last(), g1, g2);
    }
}

/// Marking the module `k` provided lowers the count of modules not yet provided
/// by the number of times `k` is required.
pub proof fn lemma_waiting_mark_done(req: Seq<Seq<char>>, g1: Seq<GraphEntry>, g2: Seq<GraphEntry>, k: Seq<char>)
    requires
        !is_done(g1, k),
        is_done(g2, k),
        forall|x: Seq<char>| x != k ==> (is_done(g1, x) <==> is_done(g2, x)),
    ensures
        waiting_on(req, g2) + occurrences(req, k) == waiting_on(req, g1),
    decreases req.len(),
{
    if req.len() > 0 {
        lemma_waiting_mark_done(req.drop_last(), g1, g2, k);
    }
}

/// When no module of `req` waits, each is provided.
pub proof fn lemma_waiting_zero(req: Seq<Seq<char>>, g: Seq<GraphEntry>)
    ensures
        waiting_on(req, g) <= req.len(),
        waiting_on(req, g) == 0 ==> forall|k: Seq<char>| req.contains(k) ==> is_done(g, k),
    decreases req.len(),
{
    if req.len() > 0 {
        lemma_waiting_zero(req.drop_last(), g);
        if waiting_on(req, g) == 0 {
            assert forall|k: Seq<char>| req.contains(k) implies is_done(g, k) by {
                let j = choose|j: int| 0 <= j < req.len() && req[j] == k;
                if j < req.len() - 1 {
                    assert(req.drop_last()[j] == k);
                }
            }
        }
    }
}

/// The count of waiting rules below `n` depends only on the rules below `n`.
pub proof fn lemma_num_waiting_prefix<'i>(
    a1: Seq<Option<DepInfo<'i>>>,
    c1: Seq<usize>,
    a2: Seq<Option<DepInfo<'i>>>,
    c2: Seq<usize>,
    n: int,
)
    requires
        0 <= n <= a1.len(),
        n <= a2.len(),
        n <= c1.len(),
        n <= c2.len(),
        forall|i: int| #![trigger a1[i]] #![trigger c1[i]] 0 <= i < n ==> (a1[i] is Some <==> a2[i] is Some) && c1[i] == c2[i],
    ensures
        num_waiting(a1, c1, n) == num_waiting(a2, c2, n),
    decreases n,
{
    if n > 0 {
        assert forall|i: int| 0 <= i < n - 1 implies (a1[i] is Some <==> a2[i] is Some) && c1[i] == c2[i] by {}
        lemma_num_waiting_prefix(a1, c1, a2, c2, n - 1);
    }
}

/// Changing what is known of one rule changes the count of waiting rules by
/// whether that rule waits.
pub proof fn lemma_num_waiting_update<'i>(
    a1: Seq<Option<DepInfo<'i>>>,
    c1: Seq<usize>,
    a2: Seq<Option<DepInfo<'i>>>,
    c2: Seq<usize>,
    n: int,
    x: int,
)
    requires
        0 <= x < n,
        n <= a1.len(),
        n <= a2.len(),
        n <= c1.len(),
        n <= c2.len(),
        forall|i: int| #![trigger a1[i]] #![trigger c1[i]] 0 <= i < n && i != x ==> (a1[i] is Some <==> a2[i] is Some) && c1[i] == c2[i],
    ensures
        num_waiting(a2, c2, n) + (if a1[x] is Some && c1[x] > 0 { 1int } else { 0int }) == num_waiting(a1, c1, n) + (
        if a2[x] is Some && c2[x] > 0 { 1int } else { 0int }),
    decreases n,
{
    if n - 1 == x {
        assert forall|i: int| 0 <= i < n - 1 implies (a1[i] is Some <==> a2[i] is Some) && c1[i] == c2[i] by {}
        lemma_num_waiting_prefix(a1, c1, a2, c2, n - 1);
    } else {
        assert forall|i: int| 0 <= i < n - 1 && i != x implies (a1[i] is Some <==> a2[i] is Some) && c1[i] == c2[i] by {}
        lemma_num_waiting_update(a1, c1, a2, c2, n - 1, x);
    }
}

impl<'i, E> Order<'i, E> {
    /// An order of the rules `nodes`, read first to last.
    pub fn new(nodes: Vec<Result<DepInfo<'i>, E>>) -> (o: Self)
        ensures
            o.wf(),
            o.input() == nodes@,
            o.read().len() == 0,
            o.emitted().len() == 0,
    {
        let mut nodes = nodes;
        let ghost all = nodes@;
        let mut reversed: Vec<Result<DepInfo<'i>, E>> = Vec::new();
        while nodes.len() > 0
            invariant
                nodes@ + reversed@.reverse() == all,
            decreases nodes@.len(),
        {
            let ghost before = nodes@;
            let item = nodes.pop().unwrap();
            proof {
                assert(before == nodes@.push(item));
            }
            let ghost prev = reversed@;
            reversed.push(item);
            assert(reversed@.reverse() =~= seq![item] + prev.reverse());
            assert(nodes@ + reversed@.reverse() =~= before + prev.reverse());
        }
        assert(reversed@.reverse() =~= all);
        let o = Order {
            nodes: reversed,
            arena: Vec::new(),
            counts: Vec::new(),
            graph: Vec::new(),
            stack: Vec::new(),
            solve: 0,
            read: Ghost(Seq::empty()),
            history: Ghost(Seq::empty()),
        };
        assert(o.emitted() =~= Seq::<DepInfoModel>::empty());
        o
    }
}

/// A module that no entry names is not required by a rule whose required modules
/// all have entries.
pub proof fn lemma_occurrences_absent<A>(s: Seq<A>, x: A)
    requires
        !s.contains(x),
    ensures
        occurrences(s, x) == 0,
    decreases s.len(),
{
    if s.len() > 0 {
        assert(!s.drop_last().contains(x)) by {
            if s.drop_last().contains(x) {
                let j = choose|j: int| 0 <= j < s.drop_last().len() && s.drop_last()[j] == x;
                assert(s[j] == x);
            }
        }
        lemma_occurrences_absent(s.drop_last(), x);
    }
}

/// Taking one more element of `s` into the prefix.
pub proof fn lemma_prefix_push<A>(s: Seq<A>, t: int)
    requires
        0 <= t < s.len(),
    ensures
        s.subrange(0, t + 1) == s.subrange(0, t).push(s[t]),
{
    assert(s.subrange(0, t + 1) =~= s.subrange(0, t).push(s[t]));
}

/// The count of waiting rules below `n` is at most `n`.
pub proof fn lemma_num_waiting_bound<'i>(a: Seq<Option<DepInfo<'i>>>, c: Seq<usize>, n: int)
    ensures
        num_waiting(a, c, n) <= if n < 0 { 0 } else { n },
    decreases n,
{
    if n > 0 {
        lemma_num_waiting_bound(a, c, n - 1);
    }
}

/// Adding an entry that waits changes no module's being provided; the new
/// entry's module gains an entry.
pub proof fn lemma_graph_push<'i>(g: Seq<GraphEntry<'i>>, e: GraphEntry<'i>)
    requires
        e.graph is Deps,
    ensures
        forall|k: Seq<char>| is_done(g.push(e), k) <==> is_done(g, k),
        forall|k: Seq<char>| has_entry(g.push(e), k) <==> (has_entry(g, k) || e.key@ == k),
{
    let g2 = g.push(e);
    assert forall|k: Seq<char>| is_done(g2, k) <==> is_done(g, k) by {
        if is_done(g2, k) {
            let j = choose|j: int| 0 <= j < g2.len() && g2[j].key@ == k && g2[j].graph is Done;
            assert(g[j] == g2[j]);
        }
        if is_done(g, k) {
            let j = choose|j: int| 0 <= j < g.len() && g[j].key@ == k && g[j].graph is Done;
            assert(g[j] == g2[j]);
        }
    }
    assert forall|k: Seq<char>| has_entry(g2, k) <==> (has_entry(g, k) || e.key@ == k) by {
        if has_entry(g2, k) {
            let j = choose|j: int| 0 <= j < g2.len() && g2[j].key@ == k;
            if j < g.len() {
                assert(g[j] == g2[j]);
            }
        }
        if has_entry(g, k) {
            let j = choose|j: int| 0 <= j < g.len() && g[j].key@ == k;
            assert(g[j] == g2[j]);
        }
        if e.key@ == k {
            assert(g2[g.len() as int] == e);
        }
    }
}

/// Replacing an entry by one of the same module and the same state, provided
/// or not, changes no module's being provided nor having an entry.
pub proof fn lemma_graph_update_same<'i>(g: Seq<GraphEntry<'i>>, j: int, e: GraphEntry<'i>)
    requires
        0 <= j < g.len(),
        g[j].key@ == e.key@,
        g[j].graph is Done <==> e.graph is Done,
    ensures
        forall|k: Seq<char>| is_done(g.update(j, e), k) <==> is_done(g, k),
        forall|k: Seq<char>| has_entry(g.update(j, e), k) <==> has_entry(g, k),
        keys_distinct(g) ==> keys_distinct(g.update(j, e)),
{
    let g2 = g.update(j, e);
    assert forall|k: Seq<char>| is_done(g2, k) <==> is_done(g, k) by {
        if is_done(g2, k) {
            let a = choose|a: int| 0 <= a < g2.len() && g2[a].key@ == k && g2[a].graph is Done;
            assert(g[a].key@ == k && g[a].graph is Done);
        }
        if is_done(g, k) {
            let a = choose|a: int| 0 <= a < g.len() && g[a].key@ == k && g[a].graph is Done;
            assert(g2[a].key@ == k && g2[a].graph is Done);
        }
    }
    assert forall|k: Seq<char>| has_entry(g2, k) <==> has_entry(g, k) by {
        if has_entry(g2, k) {
            let a = choose|a: int| 0 <= a < g2.len() && g2[a].key@ == k;
            assert(g[a].key@ == k);
        }
        if has_entry(g, k) {
            let a = choose|a: int| 0 <= a < g.len() && g[a].key@ == k;
            assert(g2[a].key@ == k);
        }
    }
}

impl<'i, E> Order<'i, E> {
    /// Reads the rule `node`: it waits for each module it requires that is not
    /// yet provided, once for each time it requires it; if it waits for none, it
    /// is ready.
    fn register(&mut self, node: DepInfo<'i>)
        requires
            old(self).wf(),
        ensures
            final(self).wf(),
            final(self).read() == old(self).read().push(node.model()),
            final(self).history@ == old(self).history@,
            final(self).nodes == old(self).nodes,
            final(self).emitted() == old(self).emitted(),
            final(self).stack@ == if waiting_on(requires_keys(node.model()), old(self).graph@) == 0 {
                old(self).stack@.push(old(self).read().len() as usize)
            } else {
                old(self).stack@
            },
            forall|k: Seq<char>| is_done(final(self).graph@, k) <==> is_done(old(self).graph@, k),
            num_pending(final(self).arena@, final(self).arena@.len() as int) == num_pending(old(self).arena@, old(self).arena@.len() as int) + 1,
    {
        let id = self.arena.len();
        let ghost m = node.model();
        let ghost req = requires_keys(m);
        let ghost g0 = self.graph@;
        let ghost n = self.read@.len();
        let mut count: usize = 0;
        let mut t: usize = 0;
        while t < node.requires.len()
            invariant
                old(self).wf(),
                self.graph@.len() >= g0.len(),
                g0 == old(self).graph@,
                id == n,
                n == self.read@.len(),
                m == node.model(),
                req == requires_keys(m),
                req.len() == node.requires@.len(),
                t <= req.len(),
                self.read@ == old(self).read@,
                self.history@ == old(self).history@,
                self.arena == old(self).arena,
                self.counts == old(self).counts,
                self.stack == old(self).stack,
                self.solve == old(self).solve,
                self.nodes == old(self).nodes,
                keys_distinct(self.graph@),
                forall|k: Seq<char>| is_done(self.graph@, k) <==> is_done(g0, k),
                forall|j: int| 0 <= j < g0.len() ==> #[trigger] self.graph@[j].key@ == g0[j].key@ && (self.graph@[j].graph is Done <==> g0[j].graph is Done),
                forall|j: int| g0.len() <= j < self.graph@.len() ==> #[trigger] self.graph@[j].graph is Deps && !has_entry(g0, self.graph@[j].key@),
                count == waiting_on(req.subrange(0, t as int), g0),
                count <= t,
                forall|k: Seq<char>| req.subrange(0, t as int).contains(k) ==> has_entry(self.graph@, k),
                forall|j: int, q: int|
                    0 <= j < self.graph@.len() && self.graph@[j].graph is Deps && 0 <= q < self.graph@[j].graph->deps@.len() ==> {
                        let i = #[trigger] self.graph@[j].graph->deps@[q] as int;
                        0 <= i <= n && (i < n ==> self.arena@[i] is Some)
                    },
                forall|j: int, i: usize|
                    0 <= j < self.graph@.len() && self.graph@[j].graph is Deps ==> #[trigger] occurrences(self.graph@[j].graph->deps@, i) == (if j < g0.len() {
                        occurrences(g0[j].graph->deps@, i)
                    } else {
                        0nat
                    }) + (if i == id {
                        occurrences(req.subrange(0, t as int), self.graph@[j].key@)
                    } else {
                        0nat
                    }),
            decreases req.len() - t,
        {
            proof {
                lemma_prefix_push(req, t as int);
                lemma_waiting_push(req.subrange(0, t as int), req[t as int], g0);
            }
            let key = node.requires[t].desc.logical_name();
            assert(key@ == req[t as int]);
            let ghost g1 = self.graph@;
            let ghost kv = key@;
            let found = find_entry(&self.graph, cow_as_str(&key));
            let ghost at: int = match found {
                Some(j) => j as int,
                None => g1.len() as int,
            };
            match found {
                None => {
                    let mut deps: Vec<usize> = Vec::new();
                    deps.push(id);
                    let entry = GraphEntry { key, graph: Graph::Deps { deps } };
                    proof {
                        lemma_graph_push(g1, entry);
                        assert(!is_done(g1, req[t as int]));
                        assert(!is_done(g0, req[t as int]));
                        assert(entry.graph->deps@ =~= seq![id]);
                        lemma_occurrences_push(Seq::<usize>::empty(), id, id);
                        assert(seq![id] =~= Seq::<usize>::empty().push(id));
                        assert(!has_entry(g0, req[t as int])) by {
                            if has_entry(g0, req[t as int]) {
                                let a = choose|a: int| 0 <= a < g0.len() && g0[a].key@ == req[t as int];
                                assert(g1[a].key@ == req[t as int]);
                            }
                        }
                    }
                    self.graph.push(entry);
                    count = count + 1;
                },
                Some(j) => {
                    let ghost before = self.graph@[j as int];
                    let entry = &mut self.graph[j];
                    match &mut entry.graph {
                        Graph::Deps { deps } => {
                            deps.push(id);
                            count = count + 1;
                        },
                        Graph::Done => {},
                    }
                    proof {
                        lemma_graph_update_same(g1, j as int, self.graph@[j as int]);
                        assert(self.graph@ == g1.update(j as int, self.graph@[j as int]));
                    }
                },
            }
            proof {
                let g2 = self.graph@;
                let pre = req.subrange(0, t as int);
                assert(g2.len() >= g1.len());
                assert(at < g2.len() && g2[at].key@ == kv);
                assert(forall|j: int| 0 <= j < g1.len() && j != at ==> g2[j] == g1[j]);
                let pre1 = req.subrange(0, t + 1);
                assert forall|k: Seq<char>| pre1.contains(k) implies has_entry(g2, k) by {
                    let a = choose|a: int| 0 <= a < pre1.len() && pre1[a] == k;
                    if a < t {
                        assert(pre[a] == k);
                        assert(pre.contains(k));
                        assert(has_entry(g1, k));
                    } else {
                        assert(k == kv);
                    }
                }
                if found is None {
                    assert(!pre.contains(kv));
                    lemma_occurrences_absent(pre, kv);
                }
                assert forall|j: int, i: usize|
                    0 <= j < g2.len() && g2[j].graph is Deps implies #[trigger] occurrences(g2[j].graph->deps@, i) == (if j < g0.len() {
                        occurrences(g0[j].graph->deps@, i)
                    } else {
                        0nat
                    }) + (if i == id {
                        occurrences(req.subrange(0, t + 1), g2[j].key@)
                    } else {
                        0nat
                    }) by {
                    lemma_occurrences_push(pre, kv, g2[j].key@);
                    if j == at {
                        if j < g1.len() {
                            lemma_occurrences_push(g1[j].graph->deps@, id, i);
                        } else {
                            lemma_occurrences_push(Seq::<usize>::empty(), id, i);
                            assert(g2[j].graph->deps@ =~= Seq::<usize>::empty().push(id));
                        }
                    } else {
                        assert(g2[j] == g1[j]);
                        assert(g1[j].key@ != kv);
                    }
                }
            }
            t = t + 1;
        }
        proof {
            assert(req.subrange(0, req.len() as int) =~= req);
            lemma_num_waiting_bound(self.arena@, self.counts@, n as int);
        }
        let ghost g = self.graph@;
        let ghost a0 = self.arena@;
        let ghost c0 = self.counts@;
        self.arena.push(Some(node));
        self.counts.push(count);
        proof {
            self.read@ = self.read@.push(m);
        }
        let _ = self.arena.len();
        if count == 0 {
            self.stack.push(id);
        } else {
            self.solve = self.solve + 1;
        }
        proof {
            lemma_num_waiting_prefix(a0, c0, self.arena@, self.counts@, n as int);
            lemma_num_pending_prefix(a0, self.arena@, n as int);
            assert(self.emitted() =~= old(self).emitted());
            assert forall|k: Seq<char>| #[trigger] is_done(g, k) <==> self.provided(k) by {
                assert(is_done(g, k) <==> is_done(g0, k));
                assert(is_done(g0, k) <==> old(self).provided(k));
                assert(old(self).provided(k) <==> self.provided(k));
            }
            assert forall|i: int| 0 <= i < n && #[trigger] self.arena@[i] is Some implies self.counts@[i] == waiting_on(requires_keys(self.read@[i]), g) by {
                assert forall|k: Seq<char>| requires_keys(self.read@[i]).contains(k) implies (is_done(g0, k) <==> is_done(g, k)) by {}
                lemma_waiting_same_done(requires_keys(self.read@[i]), g0, g);
            }
            assert forall|j: int, i: int|
                0 <= j < g.len() && g[j].graph is Deps && 0 <= i < n + 1 && #[trigger] self.arena@[i] is Some implies occurrences(
                g[j].graph->deps@,
                i as usize,
            ) == occurrences(requires_keys(self.read@[i]), #[trigger] g[j].key@) by {
                assert(occurrences(g[j].graph->deps@, i as usize) == (if j < g0.len() {
                        occurrences(g0[j].graph->deps@, i as usize)
                    } else {
                        0nat
                    }) + (if i as usize == id {
                        occurrences(req.subrange(0, req.len() as int), g[j].key@)
                    } else {
                        0nat
                    }));
                if i < n {
                    if j >= g0.len() {
                        assert(!requires_keys(self.read@[i]).contains(g[j].key@));
                        lemma_occurrences_absent(requires_keys(self.read@[i]), g[j].key@);
                    }
                } else {
                    if j < g0.len() {
                        lemma_occurrences_absent(g0[j].graph->deps@, id);
                    }
                }
            }
            assert forall|i: int, k: Seq<char>|
                0 <= i < n + 1 && self.arena@[i] is Some && #[trigger] requires_keys(self.read@[i]).contains(k) implies #[trigger] has_entry(g, k) by {
                if i < n {
                    assert(has_entry(g0, k));
                    let a = choose|a: int| 0 <= a < g0.len() && g0[a].key@ == k;
                    assert(g[a].key@ == k);
                } else {
                    assert(req.subrange(0, req.len() as int).contains(k));
                }
            }
            assert forall|k: Seq<char>| req.contains(k) implies (is_done(g0, k) <==> is_done(g, k)) by {}
            lemma_waiting_same_done(req, g0, g);
            assert forall|i: int| 0 <= i < n + 1 && self.arena@[i] is Some && #[trigger] self.counts@[i] == 0 implies self.stack@.contains(i as usize) by {
                if i < n {
                    assert(old(self).stack@.contains(i as usize));
                    let a = choose|a: int| 0 <= a < old(self).stack@.len() && old(self).stack@[a] == i as usize;
                    assert(self.stack@[a] == i as usize);
                } else {
                    assert(self.stack@[self.stack@.len() - 1] == id);
                }
            }
        }
    }
}

pub proof fn lemma_occurrences_drop_first<A>(s: Seq<A>, x: A)
    requires
        s.len() > 0,
    ensures
        occurrences(s, x) == occurrences(s.drop_first(), x) + if s[0] == x { 1nat } else { 0nat },
    decreases s.len(),
{
    if s.len() > 1 {
        lemma_occurrences_drop_first(s.drop_last(), x);
        assert(s.drop_last().drop_first() =~= s.drop_first().drop_last());
    } else {
        assert(s.drop_first() =~= Seq::<A>::empty());
        assert(s.drop_last() =~= Seq::<A>::empty());
    }
}

/// An element that occurs nowhere is not in the sequence.
pub proof fn lemma_occurrences_zero<A>(s: Seq<A>, x: A)
    requires
        occurrences(s, x) == 0,
    ensures
        forall|q: int| 0 <= q < s.len() ==> s[q] != x,
    decreases s.len(),
{
    if s.len() > 0 {
        lemma_occurrences_zero(s.drop_last(), x);
        assert forall|q: int| 0 <= q < s.len() implies s[q] != x by {
            if q < s.len() - 1 {
                assert(s.drop_last()[q] == s[q]);
            }
        }
    }
}

impl<'i, E> Order<'i, E> {
    /// Releases the rules `deps`, in turn, from waiting for a module that was
    /// just provided; each that waits for nothing more is pushed on the stack.
    fn release(&mut self, deps: &Vec<usize>, Ghost(done): Ghost<Set<Seq<char>>>)
        requires
            old(self).inv(done, deps@),
        ensures
            final(self).inv(done, Seq::empty()),
            final(self).read@ == old(self).read@,
            final(self).history@ == old(self).history@,
            final(self).graph == old(self).graph,
            final(self).nodes == old(self).nodes,
            final(self).arena == old(self).arena,
            final(self).stack@.len() >= old(self).stack@.len(),
            final(self).stack@.subrange(0, old(self).stack@.len() as int) == old(self).stack@,
    {
        let mut q: usize = 0;
        assert(deps@.subrange(0, deps@.len() as int) =~= deps@);
        while q < deps.len()
            invariant
                self.inv(done, deps@.subrange(q as int, deps@.len() as int)),
                q <= deps@.len(),
                self.read@ == old(self).read@,
                self.history@ == old(self).history@,
                self.graph == old(self).graph,
                self.nodes == old(self).nodes,
                self.arena == old(self).arena,
                self.stack@.len() >= old(self).stack@.len(),
                self.stack@.subrange(0, old(self).stack@.len() as int) == old(self).stack@,
            decreases deps@.len() - q,
        {
            let ghost rest = deps@.subrange(q as int, deps@.len() as int);
            let ghost rest2 = deps@.subrange(q + 1, deps@.len() as int);
            let ghost c0 = self.counts@;
            let ghost s0 = self.stack@;
            let i = deps[q];
            proof {
                assert(rest[0] == i);
                assert(rest.drop_first() =~= rest2);
                assert forall|x: usize| occurrences(rest, x) == occurrences(rest2, x) + if i == x { 1nat } else { 0nat } by {
                    lemma_occurrences_drop_first(rest, x);
                }
                assert(0 <= i < self.read@.len() && self.arena@[i as int] is Some);
                assert(c0[i as int] >= occurrences(rest, i));
            }
            self.counts.set(i, self.counts[i] - 1);
            proof {
                lemma_num_waiting_update(self.arena@, c0, self.arena@, self.counts@, self.read@.len() as int, i as int);
            }
            if self.counts[i] == 0 {
                self.stack.push(i);
                self.solve = self.solve - 1;
            }
            proof {
                let n = self.read@.len();
                assert(!s0.contains(i)) by {
                    if s0.contains(i) {
                        let a = choose|a: int| 0 <= a < s0.len() && s0[a] == i;
                        assert(c0[s0[a] as int] == 0);
                    }
                }
                assert forall|t: int| 0 <= t < self.stack@.len() implies {
                    let x = #[trigger] self.stack@[t] as int;
                    &&& 0 <= x < n
                    &&& self.arena@[x] is Some
                    &&& self.counts@[x] == 0
                } by {
                    if t < s0.len() {
                        assert(self.stack@[t] == s0[t]);
                    }
                }
                assert forall|t: int, u: int| 0 <= t < u < self.stack@.len() implies self.stack@[t] != self.stack@[u] by {
                    if u < s0.len() {
                        assert(self.stack@[t] == s0[t] && self.stack@[u] == s0[u]);
                    } else {
                        assert(self.stack@[t] == s0[t]);
                    }
                }
                assert forall|x: int| 0 <= x < n && self.arena@[x] is Some && #[trigger] self.counts@[x] == 0 implies self.stack@.contains(x as usize) by {
                    if x != i as int {
                        assert(s0.contains(x as usize));
                        let a = choose|a: int| 0 <= a < s0.len() && s0[a] == x as usize;
                        assert(self.stack@[a] == x as usize);
                    } else {
                        assert(self.stack@[self.stack@.len() - 1] == i);
                    }
                }
                assert(self.stack@.subrange(0, old(self).stack@.len() as int) =~= old(self).stack@);
                assert forall|t: int| 0 <= t < rest2.len() implies {
                    let x = #[trigger] rest2[t] as int;
                    &&& 0 <= x < n
                    &&& self.arena@[x] is Some
                } by {
                    assert(rest2[t] == rest[t + 1]);
                }
                assert forall|x: int| 0 <= x < n && #[trigger] self.arena@[x] is Some implies self.counts@[x] == waiting_on(
                    requires_keys(self.read@[x]),
                    self.graph@,
                ) + occurrences(rest2, x as usize) by {
                    assert(occurrences(rest, x as usize) == occurrences(rest2, x as usize) + if i == x as usize { 1nat } else { 0nat });
                    assert(c0[x] == waiting_on(requires_keys(self.read@[x]), self.graph@) + occurrences(rest, x as usize));
                    if x != i as int {
                        assert(self.counts@[x] == c0[x]);
                    }
                }
                assert(self.solve == num_waiting(self.arena@, self.counts@, n as int));
            }
            q = q + 1;
        }
        assert(deps@.subrange(deps@.len() as int, deps@.len() as int) =~= Seq::<usize>::empty());
    }
}

/// The modules of `done`, and those of the first `t` of `ks`.
pub open spec fn done_with(done: Set<Seq<char>>, ks: Seq<Seq<char>>, t: int) -> Set<Seq<char>> {
    Set::new(|k: Seq<char>| done.contains(k) || ks.subrange(0, t).contains(k))
}

impl<'i, E> Order<'i, E> {
    /// Emits the rule on top of the stack: marks each module it provides as
    /// provided, and pushes on the stack, in turn, each rule that waited for
    /// such a module and for nothing else.
    fn resolve(&mut self) -> (node: DepInfo<'i>)
        requires
            old(self).wf(),
            old(self).stack@.len() > 0,
        ensures
            final(self).wf(),
            node.model() == old(self).read()[old(self).stack@.last() as int],
            final(self).read() == old(self).read(),
            final(self).history@ == old(self).history@.push(old(self).stack@.last() as int),
            final(self).emitted() == old(self).emitted().push(node.model()),
            final(self).nodes == old(self).nodes,
            final(self).stack@.len() >= old(self).stack@.len() - 1,
            final(self).stack@.subrange(0, old(self).stack@.len() - 1) == old(self).stack@.drop_last(),
            num_pending(final(self).arena@, final(self).arena@.len() as int) + 1 == num_pending(old(self).arena@, old(self).arena@.len() as int),
    {
        let ghost done0 = self.provided_set();
        let ghost g0 = self.graph@;
        let ghost a0 = self.arena@;
        let ghost e0 = self.emitted();
        let ghost n = self.read@.len();
        let id = self.stack.pop().unwrap();
        let node = self.arena[id].take().unwrap();
        let ghost m = node.model();
        let ghost pk = provides_keys(m);
        proof {
            let req = requires_keys(m);
            assert(m == self.read@[id as int]);
            lemma_waiting_zero(req, g0);
            self.history@ = self.history@.push(id as int);
            lemma_num_waiting_update(a0, self.counts@, self.arena@, self.counts@, n as int, id as int);
            lemma_num_pending_update(a0, self.arena@, n as int, id as int);
            assert(self.emitted() =~= e0.push(m));
            // The emitted rule waits in no list, as every module it requires is provided.
            assert forall|j: int, q: int|
                0 <= j < g0.len() && g0[j].graph is Deps && 0 <= q < g0[j].graph->deps@.len() implies g0[j].graph->deps@[q] != id by {
                assert(!is_done(g0, g0[j].key@));
                assert(!req.contains(g0[j].key@));
                lemma_occurrences_absent(req, g0[j].key@);
                lemma_occurrences_zero(g0[j].graph->deps@, id);
            }
            assert forall|t: int| 0 <= t < self.stack@.len() implies self.stack@[t] != id by {
                assert(old(self).stack@[t] == self.stack@[t]);
            }
            assert forall|t: int| 0 <= t < self.history@.len() ==> 0 <= #[trigger] self.history@[t] < n by {}
            assert forall|t: int, u: int| 0 <= t < u < self.history@.len() implies self.history@[t] != self.history@[u] by {
                if u == self.history@.len() - 1 {
                    assert(a0[old(self).history@[t]] is None);
                }
            }
            assert(self.in_dependency_order()) by {
                assert forall|t: int, k: Seq<char>|
                    0 <= t < self.emitted().len() && #[trigger] requires_keys(self.emitted()[t]).contains(k) implies exists|u: int|
                    0 <= u < t && #[trigger] provides_keys(self.emitted()[u]).contains(k) by {
                    if t < e0.len() {
                        assert(self.emitted()[t] == e0[t]);
                        let u = choose|u: int| 0 <= u < t && #[trigger] provides_keys(e0[u]).contains(k);
                        assert(self.emitted()[u] == e0[u]);
                    } else {
                        assert(is_done(g0, k));
                        assert(old(self).provided(k));
                        let u = choose|u: int| 0 <= u < e0.len() && provides_keys(e0[u]).contains(k);
                        assert(self.emitted()[u] == e0[u]);
                    }
                }
            }
            assert(pk.subrange(0, 0) =~= Seq::<Seq<char>>::empty());
            assert(done_with(done0, pk, 0) =~= done0);
            assert forall|i: int| 0 <= i < n implies (#[trigger] self.arena@[i] is Some <==> !self.history@.contains(i)) by {
                if i == id as int {
                    assert(self.history@[self.history@.len() - 1] == i);
                } else {
                    if self.history@.contains(i) {
                        let a = choose|a: int| 0 <= a < self.history@.len() && self.history@[a] == i;
                        assert(old(self).history@[a] == i);
                    }
                    if old(self).history@.contains(i) {
                        let a = choose|a: int| 0 <= a < old(self).history@.len() && old(self).history@[a] == i;
                        assert(self.history@[a] == i);
                    }
                }
            }
            assert forall|i: int| 0 <= i < n && self.arena@[i] is Some && #[trigger] self.counts@[i] == 0 implies self.stack@.contains(i as usize) by {
                assert(old(self).stack@.contains(i as usize));
                let a = choose|a: int| 0 <= a < old(self).stack@.len() && old(self).stack@[a] == i as usize;
                assert(a != old(self).stack@.len() - 1);
                assert(self.stack@[a] == i as usize);
            }
            assert forall|i: int| 0 <= i < n && #[trigger] self.arena@[i] is Some implies self.counts@[i] == waiting_on(requires_keys(self.read@[i]), self.graph@) + occurrences(Seq::<usize>::empty(), i as usize) by {
                assert(a0[i] is Some);
            }
            assert(self.inv(done_with(done0, pk, 0), Seq::empty()));
        }
        let mut t: usize = 0;
        while t < node.provides.len()
            invariant
                self.inv(done_with(done0, pk, t as int), Seq::empty()),
                self.in_dependency_order(),
                t <= pk.len(),
                old(self).stack@.len() > 0,
                num_pending(self.arena@, n as int) + 1 == num_pending(old(self).arena@, n as int),
                n == old(self).read@.len(),
                pk.len() == node.provides@.len(),
                m == node.model(),
                pk == provides_keys(m),
                self.read@ == old(self).read@,
                self.history@ == old(self).history@.push(id as int),
                self.nodes == old(self).nodes,
                self.stack@.len() >= old(self).stack@.len() - 1,
                self.stack@.subrange(0, old(self).stack@.len() - 1) == old(self).stack@.drop_last(),
            decreases pk.len() - t,
        {
            let ghost d = done_with(done0, pk, t as int);
            let ghost d2 = done_with(done0, pk, t + 1);
            let ghost g1 = self.graph@;
            let ghost e1 = self.emitted();
            let ghost s1 = self.stack@;
            let key = node.provides[t].desc.logical_name();
            let ghost kv = key@;
            proof {

                assert(kv == pk[t as int]);
                assert(pk.subrange(0, t + 1) =~= pk.subrange(0, t as int).push(kv));
                let p0 = pk.subrange(0, t as int);
                let p1 = pk.subrange(0, t + 1);
                assert forall|k: Seq<char>| d2.contains(k) <==> (d.contains(k) || k == kv) by {
                    if p1.contains(k) && k != kv {
                        let a = choose|a: int| 0 <= a < p1.len() && p1[a] == k;
                        assert(p0[a] == k);
                    }
                    if p0.contains(k) {
                        let a = choose|a: int| 0 <= a < p0.len() && p0[a] == k;
                        assert(p1[a] == k);
                    }
                    if k == kv {
                        assert(p1[t as int] == k);
                    }
                }
            }
            match find_entry(&self.graph, cow_as_str(&key)) {
                None => {
                    let entry = GraphEntry { key, graph: Graph::Done };
                    self.graph.push(entry);
                    proof {
                        let g2 = self.graph@;
                        assert(g2 == g1.push(entry));
                        assert forall|k: Seq<char>| is_done(g2, k) <==> (is_done(g1, k) || k == kv) by {
                            if is_done(g2, k) {
                                let a = choose|a: int| 0 <= a < g2.len() && g2[a].key@ == k && g2[a].graph is Done;
                                if a < g1.len() {
                                    assert(g1[a] == g2[a]);
                                }
                            }
                            if is_done(g1, k) {
                                let a = choose|a: int| 0 <= a < g1.len() && g1[a].key@ == k && g1[a].graph is Done;
                                assert(g1[a] == g2[a]);
                            }
                            if k == kv {
                                assert(g2[g1.len() as int].key@ == k);
                            }
                        }
                        assert forall|k: Seq<char>| has_entry(g1, k) ==> has_entry(g2, k) by {
                            if has_entry(g1, k) {
                                let a = choose|a: int| 0 <= a < g1.len() && g1[a].key@ == k;
                                assert(g2[a] == g1[a]);
                            }
                        }
                        assert forall|x: int| 0 <= x < n && #[trigger] self.arena@[x] is Some implies self.counts@[x]
                            == waiting_on(requires_keys(self.read@[x]), g2) + occurrences(Seq::<usize>::empty(), x as usize) by {
                            let req = requires_keys(self.read@[x]);
                            if req.contains(kv) {
                                assert(has_entry(g1, kv));
                            }
                            assert forall|k: Seq<char>| req.contains(k) implies (is_done(g1, k) <==> is_done(g2, k)) by {}
                            lemma_waiting_same_done(req, g1, g2);
                        }
                        assert forall|j: int, x: int|
                            0 <= j < g2.len() && g2[j].graph is Deps && 0 <= x < n && #[trigger] self.arena@[x] is Some implies occurrences(
                            g2[j].graph->deps@,
                            x as usize,
                        ) == occurrences(requires_keys(self.read@[x]), #[trigger] g2[j].key@) by {
                            assert(g2[j] == g1[j]);
                        }
                        assert forall|j: int, q: int|
                            0 <= j < g2.len() && g2[j].graph is Deps && 0 <= q < g2[j].graph->deps@.len() implies {
                            let x = #[trigger] g2[j].graph->deps@[q] as int;
                            &&& 0 <= x < n
                            &&& self.arena@[x] is Some
                        } by {
                            assert(g2[j] == g1[j]);
                        }
                    }
                },
                Some(j) => {
                    let mut graph = Graph::Done;
                    core::mem::swap(&mut self.graph[j].graph, &mut graph);
                    match graph {
                        Graph::Deps { deps } => {
                            proof {
                                let g2 = self.graph@;
                                assert(g2 == g1.update(j as int, GraphEntry { key: g1[j as int].key, graph: Graph::Done }));
                                assert(!is_done(g1, kv));
                                assert forall|k: Seq<char>| is_done(g2, k) <==> (is_done(g1, k) || k == kv) by {
                                    if is_done(g2, k) {
                                        let a = choose|a: int| 0 <= a < g2.len() && g2[a].key@ == k && g2[a].graph is Done;
                                        if a != j {
                                            assert(g1[a] == g2[a]);
                                        }
                                    }
                                    if is_done(g1, k) {
                                        let a = choose|a: int| 0 <= a < g1.len() && g1[a].key@ == k && g1[a].graph is Done;
                                        assert(a != j);
                                        assert(g1[a] == g2[a]);
                                    }
                                    if k == kv {
                                        assert(g2[j as int].key@ == k && g2[j as int].graph is Done);
                                    }
                                }
                                assert forall|k: Seq<char>| has_entry(g2, k) <==> has_entry(g1, k) by {
                                    if has_entry(g2, k) {
                                        let a = choose|a: int| 0 <= a < g2.len() && g2[a].key@ == k;
                                        assert(g1[a].key@ == k);
                                    }
                                    if has_entry(g1, k) {
                                        let a = choose|a: int| 0 <= a < g1.len() && g1[a].key@ == k;
                                        assert(g2[a].key@ == k);
                                    }
                                }
                                assert(keys_distinct(g2)) by {
                                    assert forall|a: int, b: int| 0 <= a < g2.len() && 0 <= b < g2.len() && a != b implies g2[a].key@ != g2[b].key@ by {
                                        assert(g2[a].key@ == g1[a].key@ && g2[b].key@ == g1[b].key@);
                                    }
                                }
                                assert forall|x: int| 0 <= x < n && #[trigger] self.arena@[x] is Some implies self.counts@[x]
                                    == waiting_on(requires_keys(self.read@[x]), g2) + occurrences(deps@, x as usize) by {
                                    let req = requires_keys(self.read@[x]);
                                    assert(occurrences(deps@, x as usize) == occurrences(req, kv));
                                    lemma_waiting_mark_done(req, g1, g2, kv);
                                }
                                assert forall|q: int| 0 <= q < deps@.len() implies {
                                    let x = #[trigger] deps@[q] as int;
                                    &&& 0 <= x < n
                                    &&& self.arena@[x] is Some
                                } by {
                                    assert(g1[j as int].graph->deps@[q] == deps@[q]);
                                }
                                assert forall|a: int, x: int|
                                    0 <= a < g2.len() && g2[a].graph is Deps && 0 <= x < n && #[trigger] self.arena@[x] is Some implies occurrences(
                                    g2[a].graph->deps@,
                                    x as usize,
                                ) == occurrences(requires_keys(self.read@[x]), #[trigger] g2[a].key@) by {
                                    assert(g2[a] == g1[a]);
                                }
                                assert forall|a: int, q: int|
                                    0 <= a < g2.len() && g2[a].graph is Deps && 0 <= q < g2[a].graph->deps@.len() implies {
                                    let x = #[trigger] g2[a].graph->deps@[q] as int;
                                    &&& 0 <= x < n
                                    &&& self.arena@[x] is Some
                                } by {
                                    assert(g2[a] == g1[a]);
                                }
                                assert(self.inv(d2, deps@));
                            }
                            self.release(&deps, Ghost(d2));
                        },
                        Graph::Done => {
                            proof {
                                assert(self.graph@ =~= g1);
                                assert(is_done(g1, kv));
                                assert(d2 =~= d);
                            }
                        },
                    }
                },
            }
            proof {
                assert(d2 =~= done_with(done0, pk, t + 1));
                assert(self.emitted() =~= e1);
                assert(self.stack@.len() >= s1.len());
                assert(self.stack@.subrange(0, s1.len() as int) == s1);
                assert(s1.len() >= old(self).stack@.len() - 1);
                let l = old(self).stack@.len() - 1;
                assert(s1.subrange(0, l) == old(self).stack@.drop_last());
                assert forall|a: int| 0 <= a < l implies self.stack@[a] == old(self).stack@[a] by {
                    assert(self.stack@.subrange(0, s1.len() as int)[a] == self.stack@[a]);
                    assert(s1.subrange(0, l)[a] == s1[a]);
                    assert(old(self).stack@.drop_last()[a] == old(self).stack@[a]);
                }
                assert(self.stack@.subrange(0, l) =~= old(self).stack@.drop_last());
            }
            t = t + 1;
        }
        proof {
            assert(pk.subrange(0, pk.len() as int) =~= pk);
            assert(done_with(done0, pk, pk.len() as int) =~= self.provided_set()) by {
                assert forall|k: Seq<char>| done_with(done0, pk, pk.len() as int).contains(k) <==> self.provided(k) by {
                    if self.provided(k) {
                        let u = choose|u: int| 0 <= u < self.emitted().len() && provides_keys(self.emitted()[u]).contains(k);
                        if u < e0.len() {
                            assert(self.emitted()[u] == e0[u]);
                            assert(old(self).provided(k));
                        }
                    }
                    if done0.contains(k) {
                        let u = choose|u: int| 0 <= u < e0.len() && provides_keys(e0[u]).contains(k);
                        assert(self.emitted()[u] == e0[u]);
                    }
                    if pk.contains(k) {
                        assert(self.emitted()[e0.len() as int] == m);
                    }
                }
            }
        }
        node
    }
}

/// When some module of `req` waits, one of them is not provided.
pub proof fn lemma_waiting_some(req: Seq<Seq<char>>, g: Seq<GraphEntry>)
    requires
        waiting_on(req, g) > 0,
    ensures
        exists|k: Seq<char>| req.contains(k) && !is_done(g, k),
    decreases req.len(),
{
    if !is_done(g, req.last()) {
        assert(req.contains(req.last()));
    } else {
        lemma_waiting_some(req.drop_last(), g);
        let k = choose|k: Seq<char>| req.drop_last().contains(k) && !is_done(g, k);
        let j = choose|j: int| 0 <= j < req.drop_last().len() && req.drop_last()[j] == k;
        assert(req[j] == k);
    }
}

/// When some rule waits, there is one.
pub proof fn lemma_num_waiting_some<'i>(a: Seq<Option<DepInfo<'i>>>, c: Seq<usize>, n: int)
    requires
        num_waiting(a, c, n) > 0,
    ensures
        exists|i: int| 0 <= i < n && a[i] is Some && c[i] > 0,
    decreases n,
{
    if !(a[n - 1] is Some && c[n - 1] > 0) {
        lemma_num_waiting_some(a, c, n - 1);
    }
}

/// When no rule waits, none does.
pub proof fn lemma_num_waiting_none<'i>(a: Seq<Option<DepInfo<'i>>>, c: Seq<usize>, n: int)
    requires
        num_waiting(a, c, n) == 0,
    ensures
        forall|i: int| 0 <= i < n ==> !(a[i] is Some && c[i] > 0),
    decreases n,
{
    if n > 0 {
        lemma_num_waiting_none(a, c, n - 1);
    }
}

/// A copy of a module's state.
fn clone_graph(graph: &Graph) -> (c: Graph)
    ensures
        c is Done <==> graph is Done,
        c is Deps ==> c->deps@ == graph->deps@,
{
    match graph {
        Graph::Deps { deps } => {
            let mut copy: Vec<usize> = Vec::new();
            let mut q: usize = 0;
            while q < deps.len()
                invariant
                    q <= deps@.len(),
                    copy@ == deps@.subrange(0, q as int),
                decreases deps@.len() - q,
            {
                copy.push(deps[q]);
                q = q + 1;
                assert(copy@ =~= deps@.subrange(0, q as int));
            }
            assert(copy@ =~= deps@);
            Graph::Deps { deps: copy }
        },
        Graph::Done => Graph::Done,
    }
}

/// The same entries as `g`, both ways: same modules, same states.
pub open spec fn same_graph<'i>(a: Seq<GraphEntry<'i>>, b: Seq<GraphEntry<'i>>) -> bool {
    &&& a.len() == b.len()
    &&& forall|j: int| 0 <= j < a.len() ==> {
        &&& #[trigger] a[j].key@ == b[j].key@
        &&& (a[j].graph is Done <==> b[j].graph is Done)
        &&& (a[j].graph is Deps ==> a[j].graph->deps@ == b[j].graph->deps@)
    }
}

impl<'i, E> Order<'i, E> {
    /// A copy of what is known of each module.
    fn error_graph(&self) -> (g: Vec<GraphEntry<'i>>)
        ensures
            same_graph(g@, self.graph@),
    {
        let mut g: Vec<GraphEntry<'i>> = Vec::new();
        let mut j: usize = 0;
        while j < self.graph.len()
            invariant
                j <= self.graph@.len(),
                g@.len() == j,
                forall|k: int| 0 <= k < j ==> {
                    &&& #[trigger] g@[k].key@ == self.graph@[k].key@
                    &&& (g@[k].graph is Done <==> self.graph@[k].graph is Done)
                    &&& (g@[k].graph is Deps ==> g@[k].graph->deps@ == self.graph@[k].graph->deps@)
                },
            decreases self.graph@.len() - j,
        {
            let key = clone_cow_str(&self.graph[j].key);
            let graph = clone_graph(&self.graph[j].graph);
            g.push(GraphEntry { key, graph });
            j = j + 1;
        }
        g
    }
}

/// How many of the rules numbered below `n` were not emitted yet.
pub open spec fn num_pending<'i>(arena: Seq<Option<DepInfo<'i>>>, n: int) -> nat
    decreases n,
{
    if n <= 0 {
        0
    } else {
        num_pending(arena, n - 1) + if arena[n - 1] is Some { 1nat } else { 0nat }
    }
}

pub proof fn lemma_num_pending_prefix<'i>(a1: Seq<Option<DepInfo<'i>>>, a2: Seq<Option<DepInfo<'i>>>, n: int)
    requires
        0 <= n <= a1.len(),
        n <= a2.len(),
        forall|i: int| #![trigger a1[i]] 0 <= i < n ==> (a1[i] is Some <==> a2[i] is Some),
    ensures
        num_pending(a1, n) == num_pending(a2, n),
    decreases n,
{
    if n > 0 {
        lemma_num_pending_prefix(a1, a2, n - 1);
    }
}

pub proof fn lemma_num_pending_update<'i>(a1: Seq<Option<DepInfo<'i>>>, a2: Seq<Option<DepInfo<'i>>>, n: int, x: int)
    requires
        0 <= x < n,
        n <= a1.len(),
        n <= a2.len(),
        forall|i: int| #![trigger a1[i]] 0 <= i < n && i != x ==> (a1[i] is Some <==> a2[i] is Some),
    ensures
        num_pending(a2, n) + (if a1[x] is Some { 1int } else { 0int }) == num_pending(a1, n) + (if a2[x] is Some { 1int } else { 0int }),
    decreases n,
{
    if n - 1 == x {
        lemma_num_pending_prefix(a1, a2, n - 1);
    } else {
        lemma_num_pending_update(a1, a2, n - 1, x);
    }
}

/// Dropping the last element drops the first of the reverse.
pub proof fn lemma_reverse_drop_last<A>(s: Seq<A>)
    requires
        s.len() > 0,
    ensures
        s.drop_last().reverse() == s.reverse().subrange(1, s.len() as int),
        s.reverse()[0] == s.last(),
        s.reverse().len() == s.len(),
{
    assert(s.drop_last().reverse() =~= s.reverse().subrange(1, s.len() as int));
}

impl<'i, E> Order<'i, E> {
    /// The state is consistent whatever is left to read.
    proof fn lemma_wf_frame(a: &Self, b: &Self)
        requires
            a.wf(),
            b.arena == a.arena,
            b.counts == a.counts,
            b.graph == a.graph,
            b.stack == a.stack,
            b.solve == a.solve,
            b.read == a.read,
            b.history == a.history,
        ensures
            b.wf(),
            b.emitted() == a.emitted(),
    {
        assert(b.emitted() =~= a.emitted());
        assert(b.provided_set() =~= a.provided_set());
    }
}

impl<'i, E> Order<'i, E> {
    /// How much is left to do: twice the rules not read, and the rules read but
    /// not emitted. Each rule that is returned lowers it.
    pub closed spec fn remaining_work(&self) -> nat {
        2 * self.nodes@.len() + num_pending(self.arena@, self.arena@.len() as int)
    }

    /// What is known of each module.
    pub closed spec fn modules(&self) -> Seq<GraphEntry<'i>> {
        self.graph@
    }

    /// The rules, by number, that are ready to be emitted, the next one last.
    pub closed spec fn ready(&self) -> Seq<int> {
        self.stack@.map_values(|i: usize| i as int)
    }

    /// The rules read so far that were not emitted each require a module that
    /// no emitted rule provides.
    pub open spec fn stuck(&self) -> bool {
        forall|i: int| #[trigger] self.pending().contains(i) ==> exists|k: Seq<char>|
            requires_keys(self.read()[i]).contains(k) && !self.provided(k)
    }

    /// The next rule in the order, or why there is none: `None` once every
    /// rule was read and emitted.
    ///
    /// A rule made ready by the last one emitted comes first, the last made
    /// ready first; otherwise rules are read until one is ready, and an input
    /// that is an error is passed on. When no rule is left to read and some
    /// wait, the modules they wait for form a cycle or are provided by no rule.
    pub fn next(&mut self) -> (r: Option<Result<DepInfo<'i>, OrderError<'i, E>>>)
        requires
            old(self).wf(),
        ensures
            final(self).wf(),
            // The input is read from the front, and every rule read is kept.
            final(self).input().len() <= old(self).input().len(),
            final(self).input() == old(self).input().subrange(
                old(self).input().len() - final(self).input().len(),
                old(self).input().len() as int,
            ),
            final(self).read().len() >= old(self).read().len(),
            final(self).read().subrange(0, old(self).read().len() as int) == old(self).read(),
            // A rule made ready earlier comes first, the last made ready first;
            // the others stay ready in their order, below those it releases.
            old(self).ready().len() > 0 ==> {
                &&& r matches Some(Ok(n)) && n.model() == old(self).read()[old(self).ready().last()]
                &&& final(self).input() == old(self).input()
                &&& final(self).ready().len() >= old(self).ready().len() - 1
                &&& final(self).ready().subrange(0, old(self).ready().len() - 1) == old(self).ready().drop_last()
            },
            // Otherwise the input is read until a rule is ready, or an error.
            ({
                let c = old(self).input().len() - final(self).input().len();
                let k = if r matches Some(Err(OrderError::External(_))) { c - 1 } else { c };
                &&& old(self).ready().len() > 0 ==> c == 0
                &&& 0 <= k
                &&& forall|j: int| 0 <= j < k ==> #[trigger] old(self).input()[j] is Ok
                &&& final(self).read() == old(self).read() + input_rules(old(self).input().subrange(0, k))
                &&& r matches Some(Err(OrderError::External(e))) ==> old(self).input()[c - 1] == Err::<DepInfo<'i>, E>(e)
                &&& r matches Some(Ok(n)) ==> (old(self).ready().len() == 0 ==> {
                    &&& c > 0
                    &&& n.model() == old(self).input()[c - 1]->Ok_0.model()
                })
                &&& (r is None || r matches Some(Err(OrderError::CycleOrIncomplete { .. }))) ==> final(self).input().len() == 0
            }),
            // A rule is emitted after the rules that provide what it requires.
            r matches Some(Ok(n)) ==> {
                &&& final(self).emitted() == old(self).emitted().push(n.model())
                &&& final(self).emitted_ids().len() == old(self).emitted_ids().len() + 1
                &&& final(self).emitted_ids().drop_last() == old(self).emitted_ids()
                &&& forall|k: Seq<char>| #[trigger] requires_keys(n.model()).contains(k) ==> old(self).provided(k)
                &&& final(self).remaining_work() < old(self).remaining_work()
            },
            !(r matches Some(Ok(_))) ==> final(self).emitted() == old(self).emitted(),
            !(r matches Some(Ok(_))) ==> final(self).emitted_ids() == old(self).emitted_ids(),
            // Without an error, the order ends once every rule read was emitted.
            r is None ==> final(self).pending() == Set::<int>::empty(),
            // The error of a cycle or a missing module: rules wait, and none can
            // be emitted.
            r matches Some(Err(OrderError::CycleOrIncomplete { graph })) ==> {
                &&& final(self).pending() != Set::<int>::empty()
                &&& final(self).stuck()
                &&& same_graph(graph@, final(self).modules())
            },
    {
        let ghost i0 = self.input();
        let ghost r0 = self.read@;
        let ghost w0 = self.remaining_work();
        let ghost mut c: int = 0;
        proof {
            assert(i0.subrange(0, i0.len() as int) =~= i0);
            assert(r0 + input_rules(i0.subrange(0, 0)) =~= r0);
        }
        loop
            invariant
                self.wf(),
                old(self).wf(),
                0 <= c <= i0.len(),
                i0 == old(self).input(),
                r0 == old(self).read(),
                self.input() == i0.subrange(c, i0.len() as int),
                self.read@ == r0 + input_rules(i0.subrange(0, c)),
                forall|j: int| 0 <= j < c ==> #[trigger] i0[j] is Ok,
                c > 0 ==> old(self).stack@.len() == 0,
                c == 0 ==> self.stack@ == old(self).stack@ && self.read@ == old(self).read@,
                c > 0 ==> self.stack@.len() == 0 || self.stack@ == seq![(self.read@.len() - 1) as usize],
                self.emitted() == old(self).emitted(),
                self.history@ == old(self).history@,
                w0 == old(self).remaining_work(),
                self.remaining_work() + c <= w0,
            ensures
                self.nodes@.len() == 0,
                self.stack@.len() == 0,
            decreases self.nodes@.len(),
        {
            if self.stack.len() > 0 {
                let ghost top = self.stack@.last();
                let ghost e1 = self.emitted();
                let ghost n1 = self.read@.len();
                let ghost st0 = self.stack@;
                let node = self.resolve();
                proof {
                    if c == 0 {
                        assert(old(self).ready().last() == top as int);
                        let m = old(self).ready().len() - 1;
                        assert(self.stack@.subrange(0, m) == st0.drop_last());
                        assert forall|t: int| 0 <= t < m implies #[trigger] self.ready().subrange(0, m)[t] == old(self).ready().drop_last()[t] by {
                            assert(self.stack@.subrange(0, m)[t] == st0.drop_last()[t]);
                        }
                        assert(self.ready().subrange(0, m) =~= old(self).ready().drop_last());
                    } else {
                        assert(top == (n1 - 1) as usize);
                    }
                    assert forall|k: Seq<char>| #[trigger] requires_keys(node.model()).contains(k) implies old(self).provided(k) by {
                        let t = e1.len() as int;
                        assert(self.emitted()[t] == node.model());
                        let u = choose|u: int| 0 <= u < t && #[trigger] provides_keys(self.emitted()[u]).contains(k);
                        assert(self.emitted()[u] == e1[u]);
                    }
                }
                assert(self.history@.drop_last() =~= old(self).history@);
                return Some(Ok(node));
            }
            let ghost nodes0 = self.nodes@;
            let ghost before = *self;
            proof {
                if nodes0.len() > 0 {
                    lemma_reverse_drop_last(nodes0);
                    assert(i0[c] == self.input()[0]);
                }
            }
            match self.nodes.pop() {
                None => {
                    proof {
                        Self::lemma_wf_frame(&before, self);
                    }
                    break;
                },
                Some(Err(e)) => {
                    proof {
                        Self::lemma_wf_frame(&before, self);
                        lemma_reverse_drop_last(nodes0);
                        assert(self.input() =~= i0.subrange(c + 1, i0.len() as int));
                        c = c + 1;
                    }
                    return Some(Err(OrderError::External(e)));
                },
                Some(Ok(node)) => {
                    proof {
                        Self::lemma_wf_frame(&before, self);
                        lemma_reverse_drop_last(nodes0);
                    }
                    self.register(node);
                    proof {
                        assert(self.input() =~= i0.subrange(c + 1, i0.len() as int));
                        assert(self.read@ =~= r0 + input_rules(i0.subrange(0, c + 1)));
                        c = c + 1;
                    }
                },
            }
        }
        proof {
            assert(self.input().len() == 0);
            assert(old(self).ready().len() == old(self).stack@.len());
        }
        if self.solve > 0 {
            let graph = self.error_graph();
            proof {
                let n = self.read@.len() as int;
                lemma_num_waiting_some(self.arena@, self.counts@, n);
                let i = choose|i: int| 0 <= i < n && self.arena@[i] is Some && self.counts@[i] > 0;
                assert(self.pending().contains(i));
                assert forall|x: int| #[trigger] self.pending().contains(x) implies exists|k: Seq<char>|
                    requires_keys(self.read()[x]).contains(k) && !self.provided(k) by {
                    assert(self.arena@[x] is Some);
                    assert(occurrences(Seq::<usize>::empty(), x as usize) == 0);
                    assert(self.counts@[x] == waiting_on(requires_keys(self.read@[x]), self.graph@) + occurrences(Seq::<usize>::empty(), x as usize));
                    if self.counts@[x] == 0 {
                        assert(self.stack@.contains(x as usize));
                    }
                    lemma_waiting_some(requires_keys(self.read@[x]), self.graph@);
                }
            }
            return Some(Err(OrderError::CycleOrIncomplete { graph }));
        }
        proof {
            let n = self.read@.len() as int;
            lemma_num_waiting_none(self.arena@, self.counts@, n);
            assert forall|x: int| !self.pending().contains(x) by {
                if self.pending().contains(x) {
                    assert(self.arena@[x] is Some);
                    assert(!(self.arena@[x] is Some && self.counts@[x] > 0));
                    assert(self.stack@.contains(x as usize));
                }
            }
            assert(self.pending() =~= Set::<int>::empty());
        }
        None
    }
}

/// `ids` numbers each of the rules below `n` exactly once.
pub open spec fn orders_all(ids: Seq<int>, n: int) -> bool {
    &&& forall|t: int| 0 <= t < ids.len() ==> 0 <= #[trigger] ids[t] < n
    &&& forall|t: int, u: int| 0 <= t < u < ids.len() ==> ids[t] != ids[u]
    &&& forall|i: int| 0 <= i < n ==> ids.contains(i)
}

/// Taken in the order `ids`, each of `rules` comes after rules that provide the
/// modules it requires.
pub open spec fn respects_dependencies(rules: Seq<DepInfoModel>, ids: Seq<int>) -> bool {
    forall|t: int, k: Seq<char>|
        0 <= t < ids.len() && #[trigger] requires_keys(rules[ids[t]]).contains(k) ==> exists|u: int|
            0 <= u < t && #[trigger] provides_keys(rules[ids[u]]).contains(k)
}

/// Each of the rules numbered in `p` requires a module that no other rule
/// provides: none of them can come first.
pub open spec fn blocked(rules: Seq<DepInfoModel>, p: Set<int>) -> bool {
    forall|i: int| #[trigger] p.contains(i) ==> exists|k: Seq<char>| {
        &&& requires_keys(rules[i]).contains(k)
        &&& forall|j: int| 0 <= j < rules.len() && !p.contains(j) ==> !#[trigger] provides_keys(rules[j]).contains(k)
    }
}

/// Rules that can be ordered, each after the rules that provide the modules it
/// requires, are never blocked: in any nonempty set of them, the one ordered
/// first finds each module it requires provided by a rule outside the set.
pub proof fn lemma_ordered_rules_never_blocked(rules: Seq<DepInfoModel>, ids: Seq<int>, p: Set<int>)
    requires
        orders_all(ids, rules.len() as int),
        respects_dependencies(rules, ids),
        p != Set::<int>::empty(),
        forall|i: int| #[trigger] p.contains(i) ==> 0 <= i < rules.len(),
    ensures
        !blocked(rules, p),
{
    if blocked(rules, p) {
        lemma_blocked_prefix_outside(rules, ids, p, ids.len() as int);
        assert(exists|i: int| p.contains(i)) by {
            if !(exists|i: int| p.contains(i)) {
                assert(p =~= Set::<int>::empty());
            }
        }
        let i = choose|i: int| p.contains(i);
        assert(ids.contains(i));
        let t = choose|t: int| 0 <= t < ids.len() && ids[t] == i;
        assert(!p.contains(ids[t]));
    }
}

/// Under an order that puts every rule after the providers of what it
/// requires, no rule of a blocked set is among the first `t` rules ordered.
proof fn lemma_blocked_prefix_outside(rules: Seq<DepInfoModel>, ids: Seq<int>, p: Set<int>, t: int)
    requires
        forall|u: int| 0 <= u < ids.len() ==> 0 <= #[trigger] ids[u] < rules.len(),
        respects_dependencies(rules, ids),
        blocked(rules, p),
        0 <= t <= ids.len(),
    ensures
        forall|u: int| 0 <= u < t ==> !p.contains(#[trigger] ids[u]),
    decreases t,
{
    if t > 0 {
        lemma_blocked_prefix_outside(rules, ids, p, t - 1);
        let x = ids[t - 1];
        if p.contains(x) {
            let k = choose|k: Seq<char>| {
                &&& requires_keys(rules[x]).contains(k)
                &&& forall|j: int| 0 <= j < rules.len() && !p.contains(j) ==> !#[trigger] provides_keys(rules[j]).contains(k)
            };
            assert(requires_keys(rules[ids[t - 1]]).contains(k));
            let u = choose|u: int| 0 <= u < t - 1 && #[trigger] provides_keys(rules[ids[u]]).contains(k);
            assert(!p.contains(ids[u]));
            assert(0 <= ids[u] < rules.len());
        }
    }
}

/// The rules of an input that holds no error.
pub open spec fn input_rules<'i, E>(input: Seq<Result<DepInfo<'i>, E>>) -> Seq<DepInfoModel> {
    input.map_values(|r: Result<DepInfo<'i>, E>| r->Ok_0.model())
}

/// Whether the text of `key` is among `keys`.
fn contains_key<'i>(keys: &Vec<Cow<'i, str>>, key: &str) -> (r: bool)
    ensures
        r == exists|j: int| 0 <= j < keys@.len() && keys@[j]@ == key@,
{
    let mut j: usize = 0;
    while j < keys.len()
        invariant
            j <= keys@.len(),
            forall|a: int| 0 <= a < j ==> keys@[a]@ != key@,
        decreases keys@.len() - j,
    {
        if str_eq(cow_as_str(&keys[j]), key) {
            return true;
        }
        j = j + 1;
    }
    false
}

impl<'i, E> Order<'i, E> {
    /// The rules emitted so far, by number, in the order of emission.
    pub closed spec fn emitted_ids(&self) -> Seq<int> {
        self.history@
    }

    /// Each rule is emitted at most once, each emitted rule was read, and the
    /// rules read but not emitted are the pending ones.
    pub proof fn lemma_emitted_are_read(&self)
        requires
            self.wf(),
        ensures
            self.emitted().len() == self.emitted_ids().len(),
            forall|t: int| 0 <= t < self.emitted_ids().len() ==> {
                &&& 0 <= #[trigger] self.emitted_ids()[t] < self.read().len()
                &&& self.emitted()[t] == self.read()[self.emitted_ids()[t]]
            },
            forall|t: int, u: int| 0 <= t < u < self.emitted_ids().len() ==> self.emitted_ids()[t] != self.emitted_ids()[u],
            forall|i: int| 0 <= i < self.read().len() ==> (self.pending().contains(i) <==> !self.emitted_ids().contains(i)),
    {
    }

    /// Every rule emitted comes after the rules that provide the modules it
    /// requires.
    pub proof fn lemma_emitted_in_dependency_order(&self)
        requires
            self.wf(),
        ensures
            self.in_dependency_order(),
    {
    }

    /// No rule of a blocked set is ever emitted: each requires a module that no
    /// rule outside the set provides, of the rules read and still to be read
    /// (for example the rules of a cycle, or rules waiting for a module that no
    /// rule provides).
    pub proof fn lemma_blocked_rules_never_emitted(&self, p: Set<int>)
        requires
            self.wf(),
            blocked(self.read() + input_rules(self.input()), p),
        ensures
            forall|t: int| 0 <= t < self.emitted_ids().len() ==> !p.contains(#[trigger] self.emitted_ids()[t]),
    {
        let rules = self.read() + input_rules(self.input());
        let ids = self.history@;
        assert forall|u: int| 0 <= u < ids.len() implies 0 <= #[trigger] ids[u] < rules.len() by {}
        assert forall|t: int, k: Seq<char>|
            0 <= t < ids.len() && #[trigger] requires_keys(rules[ids[t]]).contains(k) implies exists|u: int|
                0 <= u < t && #[trigger] provides_keys(rules[ids[u]]).contains(k) by {
            assert(rules[ids[t]] == self.emitted()[t]);
            let u = choose|u: int| 0 <= u < t && #[trigger] provides_keys(self.emitted()[u]).contains(k);
            assert(rules[ids[u]] == self.emitted()[u]);
        }
        lemma_blocked_prefix_outside(rules, ids, p, ids.len() as int);
    }

    /// Rules read that can be ordered, each after the rules that provide the
    /// modules it requires, never leave the order stuck: while some wait, one
    /// of them has every module it requires provided. So such rules end in
    /// `None` once read, never in a reported cycle.
    pub proof fn lemma_orderable_rules_never_stuck(&self, ids: Seq<int>)
        requires
            self.wf(),
            orders_all(ids, self.read().len() as int),
            respects_dependencies(self.read(), ids),
            self.pending() != Set::<int>::empty(),
        ensures
            !self.stuck(),
    {
        let rules = self.read();
        let p = self.pending();
        if self.stuck() {
            assert forall|i: int| #[trigger] p.contains(i) implies exists|k: Seq<char>| {
                &&& requires_keys(rules[i]).contains(k)
                &&& forall|j: int| 0 <= j < rules.len() && !p.contains(j) ==> !#[trigger] provides_keys(rules[j]).contains(k)
            } by {
                let k = choose|k: Seq<char>| requires_keys(self.read()[i]).contains(k) && !self.provided(k);
                assert forall|j: int| 0 <= j < rules.len() && !p.contains(j) implies !#[trigger] provides_keys(rules[j]).contains(k) by {
                    assert(self.history@.contains(j));
                    let t = choose|t: int| 0 <= t < self.history@.len() && self.history@[t] == j;
                    assert(self.emitted()[t] == rules[j]);
                }
            }
            lemma_ordered_rules_never_blocked(rules, ids, p);
        }
    }

    /// A rule is ready exactly when it was read, is not emitted yet, and every
    /// module it requires is provided by a rule emitted so far; no rule is
    /// ready twice.
    pub proof fn lemma_ready_exactly_unblocked(&self)
        requires
            self.wf(),
        ensures
            forall|i: int| #[trigger] self.ready().contains(i) <==> {
                &&& self.pending().contains(i)
                &&& forall|k: Seq<char>| #[trigger] requires_keys(self.read()[i]).contains(k) ==> self.provided(k)
            },
            forall|t: int, u: int| 0 <= t < u < self.ready().len() ==> self.ready()[t] != self.ready()[u],
    {
        let g = self.graph@;
        assert forall|i: int| #[trigger] self.ready().contains(i) implies {
            &&& self.pending().contains(i)
            &&& forall|k: Seq<char>| #[trigger] requires_keys(self.read()[i]).contains(k) ==> self.provided(k)
        } by {
            let t = choose|t: int| 0 <= t < self.ready().len() && self.ready()[t] == i;
            assert(self.stack@[t] as int == i);
            let req = requires_keys(self.read@[i]);
            assert(self.arena@[i] is Some);
            assert(occurrences(Seq::<usize>::empty(), i as usize) == 0);
            lemma_waiting_zero(req, g);
            assert forall|k: Seq<char>| #[trigger] requires_keys(self.read()[i]).contains(k) implies self.provided(k) by {
                assert(req.contains(k));
                assert(is_done(g, k));
                assert(self.provided_set().contains(k));
            }
        }
        assert forall|i: int| self.pending().contains(i) && (forall|k: Seq<char>| #[trigger] requires_keys(self.read()[i]).contains(k) ==> self.provided(k)) implies #[trigger] self.ready().contains(i) by {
            let req = requires_keys(self.read@[i]);
            assert(self.arena@[i] is Some);
            assert(occurrences(Seq::<usize>::empty(), i as usize) == 0);
            if waiting_on(req, g) > 0 {
                lemma_waiting_some(req, g);
                let k = choose|k: Seq<char>| req.contains(k) && !is_done(g, k);
                assert(requires_keys(self.read()[i]).contains(k));
                assert(self.provided_set().contains(k));
            }
            assert(self.counts@[i] == 0);
            assert(self.stack@.contains(i as usize));
            let t = choose|t: int| 0 <= t < self.stack@.len() && self.stack@[t] == i as usize;
            assert(self.ready()[t] == i);
        }
        assert forall|t: int, u: int| 0 <= t < u < self.ready().len() implies self.ready()[t] != self.ready()[u] by {
            assert(self.stack@[t] != self.stack@[u]);
        }
    }

    /// Runs a fresh order to its end: `Some(())` with every rule emitted, or
    /// `None` at the first error.
    fn run_to_end(self) -> (r: Option<()>)
        requires
            self.wf(),
        ensures
            r is Some ==> {
                &&& forall|j: int| 0 <= j < self.input().len() ==> #[trigger] self.input()[j] is Ok
                &&& exists|ids: Seq<int>| {
                    &&& orders_all(ids, (self.read().len() + self.input().len()) as int)
                    &&& respects_dependencies(self.read() + input_rules(self.input()), ids)
                }
            },
            r is None ==> {
                ||| exists|j: int| 0 <= j < self.input().len() && #[trigger] self.input()[j] is Err
                ||| exists|p: Set<int>| {
                    &&& p != Set::<int>::empty()
                    &&& forall|i: int| #[trigger] p.contains(i) ==> 0 <= i < self.read().len() + self.input().len()
                    &&& blocked(self.read() + input_rules(self.input()), p)
                }
                ||| self.needs_earlier_provider()
            },
    {
        let ghost start = self;
        let mut order = self;
        let mut valid: Vec<Cow<'i, str>> = Vec::new();
        proof {
            assert(order.input().subrange(0, 0) =~= Seq::<Result<DepInfo<'i>, E>>::empty());
            assert(order.read() + input_rules(order.input().subrange(0, 0)) =~= order.read());
            assert(order.input().subrange(0, order.input().len() as int) =~= order.input());
        }
        let mut outcome: Option<()> = None;
        loop
            invariant_except_break
                outcome is None,
                start == self,
                order.wf(),
                start.wf(),
                order.input().len() <= start.input().len(),
                order.input() == start.input().subrange(
                    start.input().len() - order.input().len(),
                    start.input().len() as int,
                ),
                forall|j: int| 0 <= j < start.input().len() - order.input().len() ==> #[trigger] start.input()[j] is Ok,
                order.read() == start.read() + input_rules(start.input().subrange(0, start.input().len() - order.input().len())),
                forall|k: Seq<char>| order.provided(k) ==> start.provided(k) || exists|j: int| 0 <= j < valid@.len() && valid@[j]@ == k,
                order.emitted_ids().len() >= start.emitted_ids().len(),
                order.emitted_ids().subrange(0, start.emitted_ids().len() as int) == start.emitted_ids(),
            ensures
                outcome is Some ==> {
                    &&& forall|j: int| 0 <= j < start.input().len() ==> #[trigger] start.input()[j] is Ok
                    &&& exists|ids: Seq<int>| {
                        &&& orders_all(ids, (start.read().len() + start.input().len()) as int)
                        &&& respects_dependencies(start.read() + input_rules(start.input()), ids)
                    }
                },
                outcome is None ==> {
                    ||| exists|j: int| 0 <= j < start.input().len() && #[trigger] start.input()[j] is Err
                    ||| exists|p: Set<int>| {
                        &&& p != Set::<int>::empty()
                        &&& forall|i: int| #[trigger] p.contains(i) ==> 0 <= i < start.read().len() + start.input().len()
                        &&& blocked(start.read() + input_rules(start.input()), p)
                    }
                    ||| start.needs_earlier_provider()
                },
            decreases order.remaining_work(),
        {
            let ghost before = order;
            let result = order.next();
            proof {
                Self::lemma_validate_step(start, before, order, result);
                let sl = start.emitted_ids().len() as int;
                if result matches Some(Ok(_)) {
                    assert(order.emitted_ids().subrange(0, sl) =~= before.emitted_ids().subrange(0, sl)) by {
                        assert forall|t: int| 0 <= t < sl implies order.emitted_ids()[t] == before.emitted_ids()[t] by {
                            assert(order.emitted_ids().drop_last()[t] == order.emitted_ids()[t]);
                        }
                    }
                }
            }
            match result {
                None => {
                    proof {
                        Self::lemma_validate_done(start, order);
                    }
                    outcome = Some(());
                    break;
                },
                Some(Err(OrderError::External(_))) => {
                    break;
                },
                Some(Err(OrderError::CycleOrIncomplete { .. })) => {
                    proof {
                        Self::lemma_validate_blocked(start, order);
                    }
                    break;
                },
                Some(Ok(node)) => {
                    let ghost v0 = valid@;
                    let ghost all = start.read() + input_rules(start.input());
                    let ghost id = order.emitted_ids().last();
                    proof {
                        Self::lemma_validate_emitted_waited(start, before, order, node.model());
                    }
                    let mut t: usize = 0;
                    while t < node.provides.len()
                        invariant
                            t <= node.provides@.len(),
                            valid@.len() == v0.len() + t,
                            forall|j: int| 0 <= j < v0.len() ==> #[trigger] valid@[j] == v0[j],
                            forall|j: int| v0.len() <= j < valid@.len() ==> #[trigger] valid@[j]@ == provides_keys(node.model())[j - v0.len()],
                        decreases node.provides@.len() - t,
                    {
                        let key = node.provides[t].desc.logical_name();
                        valid.push(key);
                        t = t + 1;
                    }
                    let mut t: usize = 0;
                    while t < node.requires.len()
                        invariant
                            t <= node.requires@.len(),
                            valid@.len() >= v0.len(),
                            forall|j: int| 0 <= j < v0.len() ==> #[trigger] valid@[j] == v0[j],
                            forall|k: Seq<char>| #[trigger] requires_keys(node.model()).contains(k) ==> before.provided(k),
                            forall|k: Seq<char>| before.provided(k) ==> start.provided(k) || exists|j: int| 0 <= j < v0.len() && v0[j]@ == k,
                            start.waits(id),
                            node.model() == all[id],
                            all == start.read() + input_rules(start.input()),
                            outcome is None,
                            start == self,
                        decreases node.requires@.len() - t,
                    {
                        let key = node.requires[t].desc.logical_name();
                        if !contains_key(&valid, cow_as_str(&key)) {
                            proof {
                                assert(requires_keys(node.model())[t as int] == key@);
                                assert(requires_keys(node.model()).contains(key@));
                                if exists|j: int| 0 <= j < v0.len() && v0[j]@ == key@ {
                                    let j = choose|j: int| 0 <= j < v0.len() && v0[j]@ == key@;
                                    assert(valid@[j] == v0[j]);
                                }
                                assert(start.provided(key@));
                                assert(requires_keys(all[id]).contains(key@));
                            }
                            return outcome;
                        }
                        t = t + 1;
                    }
                    proof {
                        assert forall|k: Seq<char>| order.provided(k) implies start.provided(k) || exists|j: int| 0 <= j < valid@.len() && valid@[j]@ == k by {
                            let u = choose|u: int| 0 <= u < order.emitted().len() && provides_keys(order.emitted()[u]).contains(k);
                            if u < before.emitted().len() {
                                assert(order.emitted()[u] == before.emitted()[u]);
                                assert(before.provided(k));
                                if !start.provided(k) {
                                    let j = choose|j: int| 0 <= j < v0.len() && v0[j]@ == k;
                                    assert(valid@[j] == v0[j]);
                                }
                            } else {
                                assert(order.emitted()[u] == node.model());
                                let a = choose|a: int| 0 <= a < provides_keys(node.model()).len() && provides_keys(node.model())[a] == k;
                                assert(valid@[v0.len() + a]@ == k);
                            }
                        }
                    }
                },
            }
        }
        outcome
    }

    /// The rule numbered `i`, of the rules read and still to be read, was not
    /// emitted yet.
    pub open spec fn waits(&self, i: int) -> bool {
        ||| 0 <= i < self.read().len() && self.pending().contains(i)
        ||| self.read().len() <= i < self.read().len() + self.input().len()
    }

    /// A rule not emitted yet requires a module that a rule emitted already
    /// provides. A fresh order has none.
    pub open spec fn needs_earlier_provider(&self) -> bool {
        exists|i: int, k: Seq<char>|
            #![trigger requires_keys((self.read() + input_rules(self.input()))[i]).contains(k)]
            self.waits(i) && requires_keys((self.read() + input_rules(self.input()))[i]).contains(k) && self.provided(k)
    }

    /// Once the order ends, with every rule read and none left waiting (what a
    /// `None` from [`Order::next`] leaves), it has emitted each rule read exactly
    /// once, each after rules that provide the modules it requires.
    pub proof fn lemma_finished_run_emits_each_rule_once(&self)
        requires
            self.wf(),
            self.input().len() == 0,
            self.pending() == Set::<int>::empty(),
        ensures
            orders_all(self.emitted_ids(), self.read().len() as int),
            respects_dependencies(self.read(), self.emitted_ids()),
            forall|t: int| 0 <= t < self.emitted_ids().len() ==> #[trigger] self.emitted()[t] == self.read()[self.emitted_ids()[t]],
    {
        self.lemma_emitted_are_read();
        let ids = self.emitted_ids();
        let all = self.read();
        assert forall|i: int| 0 <= i < all.len() implies ids.contains(i) by {
            assert(!self.pending().contains(i));
        }
        assert forall|t: int, k: Seq<char>|
            0 <= t < ids.len() && #[trigger] requires_keys(all[ids[t]]).contains(k) implies exists|u: int|
            0 <= u < t && #[trigger] provides_keys(all[ids[u]]).contains(k) by {
            assert(self.emitted()[t] == all[ids[t]]);
            assert(requires_keys(self.emitted()[t]).contains(k));
            let u = choose|u: int| 0 <= u < t && #[trigger] provides_keys(self.emitted()[u]).contains(k);
            assert(self.emitted()[u] == all[ids[u]]);
        }
    }

    /// A fresh order, which emitted nothing, has no rule that requires a module
    /// provided by a rule emitted before.
    pub proof fn lemma_fresh_order_needs_no_earlier_provider(&self)
        requires
            self.emitted().len() == 0,
        ensures
            !self.needs_earlier_provider(),
    {
    }

    /// Runs the order to its end. It gives `Some(())` when every rule left is
    /// emitted, each after the rules emitted in this run that provide the
    /// modules it requires; the rules can then be so ordered. It gives `None` at
    /// the first error: an input that is an error, rules that wait for modules
    /// that no other rule provides, or a rule that requires a module provided
    /// only by a rule emitted before this run. On a fresh order, which has none
    /// of the last, it gives `Some(())` exactly when the rules can be ordered.
    pub fn validate(self) -> (r: Option<()>)
        requires
            self.wf(),
        ensures
            r is Some ==> {
                &&& forall|j: int| 0 <= j < self.input().len() ==> #[trigger] self.input()[j] is Ok
                &&& exists|ids: Seq<int>| {
                    &&& orders_all(ids, (self.read().len() + self.input().len()) as int)
                    &&& respects_dependencies(self.read() + input_rules(self.input()), ids)
                }
            },
            !self.needs_earlier_provider() ==> (r is Some <==> {
                &&& forall|j: int| 0 <= j < self.input().len() ==> #[trigger] self.input()[j] is Ok
                &&& exists|ids: Seq<int>| {
                    &&& orders_all(ids, (self.read().len() + self.input().len()) as int)
                    &&& respects_dependencies(self.read() + input_rules(self.input()), ids)
                }
            }),
            r is None ==> {
                ||| exists|j: int| 0 <= j < self.input().len() && #[trigger] self.input()[j] is Err
                ||| exists|p: Set<int>| {
                    &&& p != Set::<int>::empty()
                    &&& forall|i: int| #[trigger] p.contains(i) ==> 0 <= i < self.read().len() + self.input().len()
                    &&& blocked(self.read() + input_rules(self.input()), p)
                }
                ||| self.needs_earlier_provider()
            },
    {
        let ghost rules = self.read() + input_rules(self.input());
        let ghost n = self.read().len() + self.input().len();
        let ghost input = self.input();
        let r = self.run_to_end();
        proof {
            if r is None && (forall|j: int| 0 <= j < input.len() ==> #[trigger] input[j] is Ok)
                && !self.needs_earlier_provider() {
                if exists|ids: Seq<int>| orders_all(ids, n as int) && respects_dependencies(rules, ids) {
                    let ids = choose|ids: Seq<int>| orders_all(ids, n as int) && respects_dependencies(rules, ids);
                    let p = choose|p: Set<int>| {
                        &&& p != Set::<int>::empty()
                        &&& forall|i: int| #[trigger] p.contains(i) ==> 0 <= i < n
                        &&& blocked(rules, p)
                    };
                    assert(rules.len() == n);
                    lemma_ordered_rules_never_blocked(rules, ids, p);
                }
            }
        }
        r
    }

    /// What one step of `validate` keeps of its invariant: the rules read are
    /// the rules of the input read so far, which held no error.
    /// A rule emitted by a step of `validate` waited when it started.
    proof fn lemma_validate_emitted_waited(start: Self, before: Self, order: Self, m: DepInfoModel)
        requires
            start.wf(),
            order.wf(),
            before.emitted_ids().len() >= start.emitted_ids().len(),
            before.emitted_ids().subrange(0, start.emitted_ids().len() as int) == start.emitted_ids(),
            order.emitted_ids().len() == before.emitted_ids().len() + 1,
            order.emitted_ids().drop_last() == before.emitted_ids(),
            order.emitted() == before.emitted().push(m),
            order.input().len() <= start.input().len(),
            order.read() == start.read() + input_rules(start.input().subrange(0, start.input().len() - order.input().len())),
        ensures
            start.waits(order.emitted_ids().last()),
            m == (start.read() + input_rules(start.input()))[order.emitted_ids().last()],
    {
        let ids = order.emitted_ids();
        let t = ids.len() - 1;
        let id = ids[t];
        let sl = start.emitted_ids().len() as int;
        order.lemma_emitted_are_read();
        start.lemma_emitted_are_read();
        assert(order.emitted()[t] == m);
        assert(m == order.read()[id]);
        let sr = start.read().len() as int;
        let all = start.read() + input_rules(start.input());
        let c = start.input().len() - order.input().len();
        if id < sr {
            assert(order.read()[id] == start.read()[id]);
            assert(!start.emitted_ids().contains(id)) by {
                if start.emitted_ids().contains(id) {
                    let a = choose|a: int| 0 <= a < sl && start.emitted_ids()[a] == id;
                    assert(before.emitted_ids()[a] == id);
                    assert(ids[a] == before.emitted_ids()[a]);
                    assert(a < t);
                }
            }
        } else {
            assert(order.read()[id] == input_rules(start.input().subrange(0, c))[id - sr]);
            assert(start.input().subrange(0, c)[id - sr] == start.input()[id - sr]);
        }
    }

    proof fn lemma_validate_step(start: Self, before: Self, after: Self, result: Option<Result<DepInfo<'i>, OrderError<'i, E>>>)
        requires
            before.input().len() <= start.input().len(),
            before.input() == start.input().subrange(start.input().len() - before.input().len(), start.input().len() as int),
            forall|j: int| 0 <= j < start.input().len() - before.input().len() ==> #[trigger] start.input()[j] is Ok,
            before.read() == start.read() + input_rules(start.input().subrange(0, start.input().len() - before.input().len())),
            after.input().len() <= before.input().len(),
            after.input() == before.input().subrange(before.input().len() - after.input().len(), before.input().len() as int),
            ({
                let c = before.input().len() - after.input().len();
                let k = if result matches Some(Err(OrderError::External(_))) { c - 1 } else { c };
                &&& 0 <= k
                &&& forall|j: int| 0 <= j < k ==> #[trigger] before.input()[j] is Ok
                &&& after.read() == before.read() + input_rules(before.input().subrange(0, k))
                &&& result matches Some(Err(OrderError::External(e))) ==> before.input()[c - 1] == Err::<DepInfo<'i>, E>(e)
            }),
        ensures
            after.input().len() <= start.input().len(),
            after.input() == start.input().subrange(start.input().len() - after.input().len(), start.input().len() as int),
            !(result matches Some(Err(OrderError::External(_)))) ==> {
                &&& forall|j: int| 0 <= j < start.input().len() - after.input().len() ==> #[trigger] start.input()[j] is Ok
                &&& after.read() == start.read() + input_rules(start.input().subrange(0, start.input().len() - after.input().len()))
            },
            result matches Some(Err(OrderError::External(_))) ==> exists|j: int| 0 <= j < start.input().len() && #[trigger] start.input()[j] is Err,
    {
        let s = start.input();
        let c0 = s.len() - before.input().len();
        let c = before.input().len() - after.input().len();
        assert(after.input() =~= s.subrange(s.len() - after.input().len(), s.len() as int));
        if let Some(Err(OrderError::External(e))) = result {
            assert(s[c0 + c - 1] == before.input()[c - 1]);
        } else {
            assert forall|j: int| 0 <= j < c0 + c implies #[trigger] s[j] is Ok by {
                if j >= c0 {
                    assert(s[j] == before.input()[j - c0]);
                }
            }
            assert(s.subrange(0, c0 + c) =~= s.subrange(0, c0) + before.input().subrange(0, c));
            assert(input_rules(s.subrange(0, c0 + c)) =~= input_rules(s.subrange(0, c0)) + input_rules(before.input().subrange(0, c)));
        }
    }

    /// When `validate` sees the order end, the rules emitted order all of them.
    proof fn lemma_validate_done(start: Self, order: Self)
        requires
            order.wf(),
            order.input().len() == 0,
            forall|j: int| 0 <= j < start.input().len() ==> #[trigger] start.input()[j] is Ok,
            order.read() == start.read() + input_rules(start.input().subrange(0, start.input().len() as int)),
            order.pending() == Set::<int>::empty(),
        ensures
            exists|ids: Seq<int>| {
                &&& orders_all(ids, (start.read().len() + start.input().len()) as int)
                &&& respects_dependencies(start.read() + input_rules(start.input()), ids)
            },
    {
        let all = start.read() + input_rules(start.input());
        assert(start.input().subrange(0, start.input().len() as int) =~= start.input());
        assert(order.read() == all);
        order.lemma_emitted_are_read();
        let ids = order.emitted_ids();
        assert(orders_all(ids, all.len() as int)) by {
            assert forall|i: int| 0 <= i < all.len() implies ids.contains(i) by {
                assert(!order.pending().contains(i));
            }
        }
        assert(respects_dependencies(all, ids)) by {
            assert forall|t: int, k: Seq<char>|
                0 <= t < ids.len() && #[trigger] requires_keys(all[ids[t]]).contains(k) implies exists|u: int|
                0 <= u < t && #[trigger] provides_keys(all[ids[u]]).contains(k) by {
                assert(order.emitted()[t] == all[ids[t]]);
                assert(requires_keys(order.emitted()[t]).contains(k));
                let u = choose|u: int| 0 <= u < t && #[trigger] provides_keys(order.emitted()[u]).contains(k);
                assert(order.emitted()[u] == all[ids[u]]);
            }
        }
    }

    /// When `validate` sees a cycle or a missing module, the rules not emitted
    /// are blocked.
    proof fn lemma_validate_blocked(start: Self, order: Self)
        requires
            order.wf(),
            order.input().len() == 0,
            order.read() == start.read() + input_rules(start.input().subrange(0, start.input().len() as int)),
            order.pending() != Set::<int>::empty(),
            order.stuck(),
        ensures
            exists|p: Set<int>| {
                &&& p != Set::<int>::empty()
                &&& forall|i: int| #[trigger] p.contains(i) ==> 0 <= i < start.read().len() + start.input().len()
                &&& blocked(start.read() + input_rules(start.input()), p)
            },
    {
        let all = start.read() + input_rules(start.input());
        assert(start.input().subrange(0, start.input().len() as int) =~= start.input());
        assert(order.read() == all);
        order.lemma_emitted_are_read();
        let p = order.pending();
        assert forall|i: int| #[trigger] p.contains(i) implies 0 <= i < all.len() by {}
        assert(blocked(all, p)) by {
            assert forall|i: int| #[trigger] p.contains(i) implies exists|k: Seq<char>| {
                &&& requires_keys(all[i]).contains(k)
                &&& forall|j: int| 0 <= j < all.len() && !p.contains(j) ==> !#[trigger] provides_keys(all[j]).contains(k)
            } by {
                let k = choose|k: Seq<char>| requires_keys(order.read()[i]).contains(k) && !order.provided(k);
                assert forall|j: int| 0 <= j < all.len() && !p.contains(j) implies !#[trigger] provides_keys(all[j]).contains(k) by {
                    assert(order.emitted_ids().contains(j));
                    let t = choose|t: int| 0 <= t < order.emitted_ids().len() && order.emitted_ids()[t] == j;
                    assert(order.emitted()[t] == all[j]);
                }
            }
        }
    }

}

/// The outputs of rules in dependency order: of each rule its primary output,
/// then its other outputs.
pub struct OrderOutputs<'i, E> {
    iter: Order<'i, E>,
    /// The other outputs of the last rule, the next one last.
    node: Vec<Cow<'i, Utf8Path>>,
}

impl<'i, E> Order<'i, E> {
    /// The outputs of the rules, in the order of the rules.
    pub fn outputs(self) -> (o: OrderOutputs<'i, E>)
        requires
            self.wf(),
        ensures
            o.order() == self,
            o.pending_outputs().len() == 0,
    {
        OrderOutputs { iter: self, node: Vec::new() }
    }
}

impl<'i, E> OrderOutputs<'i, E> {
    /// The order of the rules.
    pub closed spec fn order(&self) -> Order<'i, E> {
        self.iter
    }

    /// The outputs of the last rule not given yet, in order.
    pub closed spec fn pending_outputs(&self) -> Seq<Seq<char>> {
        self.node@.reverse().map_values(|c: Cow<'i, Utf8Path>| c@)
    }

    /// The next output. Once the other outputs of the last rule are all given,
    /// the next rule is taken: its primary output is given, or, when it has
    /// none, `None`; an error of the order is passed on.
    pub fn next(&mut self) -> (r: Option<Result<Cow<'i, Utf8Path>, OrderError<'i, E>>>)
        requires
            old(self).order().wf(),
        ensures
            final(self).order().wf(),
            old(self).pending_outputs().len() > 0 ==> {
                &&& r matches Some(Ok(out)) && out@ == old(self).pending_outputs()[0]
                &&& final(self).pending_outputs() == old(self).pending_outputs().drop_first()
                &&& final(self).order() == old(self).order()
            },
            old(self).pending_outputs().len() == 0 ==> {
                &&& final(self).order().emitted().len() >= old(self).order().emitted().len()
                &&& final(self).order().emitted().subrange(0, old(self).order().emitted().len() as int) == old(self).order().emitted()
                &&& final(self).order().emitted().len() == old(self).order().emitted().len() + 1 ==> {
                    let rule = final(self).order().emitted().last();
                    &&& final(self).pending_outputs() == rule.outputs
                    &&& match rule.primary_output {
                        Some(p) => r matches Some(Ok(out)) && out@ == p,
                        None => r is None,
                    }
                }
                &&& final(self).order().emitted().len() == old(self).order().emitted().len() ==> {
                    &&& final(self).pending_outputs().len() == 0
                    &&& r matches Some(Ok(_)) ==> false
                    &&& r is None ==> final(self).order().pending() == Set::<int>::empty()
                    &&& r matches Some(Err(OrderError::CycleOrIncomplete { graph })) ==> {
                        &&& final(self).order().pending() != Set::<int>::empty()
                        &&& final(self).order().stuck()
                        &&& same_graph(graph@, final(self).order().modules())
                    }
                }
            },
    {
        if self.node.len() > 0 {
            let ghost before = self.node@;
            let out = self.node.pop().unwrap();
            proof {
                lemma_reverse_drop_last(before);
                assert(self.pending_outputs() =~= old(self).pending_outputs().drop_first());
            }
            return Some(Ok(out));
        }
        match self.iter.next() {
            Some(Ok(info)) => {
                let DepInfo { primary_output, outputs, .. } = info;
                let mut outputs = outputs;
                let ghost all = outputs@;
                let mut reversed: Vec<Cow<'i, Utf8Path>> = Vec::new();
                while outputs.len() > 0
                    invariant
                        outputs@ + reversed@.reverse() == all,
                    decreases outputs@.len(),
                {
                    let ghost before = outputs@;
                    let item = outputs.pop().unwrap();
                    let ghost prev = reversed@;
                    reversed.push(item);
                    assert(reversed@.reverse() =~= seq![item] + prev.reverse());
                    assert(outputs@ + reversed@.reverse() =~= before + prev.reverse());
                }
                self.node = reversed;
                proof {
                    assert(self.node@.reverse() =~= all);
                    assert(self.pending_outputs() =~= all.map_values(|c: Cow<'i, Utf8Path>| c@));
                }
                match primary_output {
                    Some(output) => Some(Ok(output)),
                    None => None,
                }
            },
            Some(Err(err)) => Some(Err(err)),
            None => None,
        }
    }
}

} // verus!
