//! The graph store: the authoritative, mutable topology of named colonies
//! with labeled directional connections.

use vstd::prelude::*;

verus! {

/// One outgoing connection of a colony: a direction label and the name of
/// the colony reached in that direction.
pub struct Conn {
    pub dir: String,
    pub dest: String,
}

/// A colony: a unique name and its outgoing connections, at most one per
/// direction label.
pub struct Colony {
    pub name: String,
    pub connections: Vec<Conn>,
}

/// The graph store: the live colonies.
pub struct Graph {
    pub colonies: Vec<Colony>,
}

/// Mathematical model of a connection.
#[verifier::ext_equal]
pub struct ConnModel {
    pub dir: Seq<char>,
    pub dest: Seq<char>,
}

/// Mathematical model of a colony.
#[verifier::ext_equal]
pub struct ColonyModel {
    pub name: Seq<char>,
    pub conns: Seq<ConnModel>,
}

impl View for Conn {
    type V = ConnModel;

    open spec fn view(&self) -> ConnModel {
        ConnModel { dir: self.dir@, dest: self.dest@ }
    }
}

impl View for Colony {
    type V = ColonyModel;

    open spec fn view(&self) -> ColonyModel {
        ColonyModel { name: self.name@, conns: self.connections@.map_values(|c: Conn| c@) }
    }
}

impl View for Graph {
    type V = Seq<ColonyModel>;

    open spec fn view(&self) -> Seq<ColonyModel> {
        self.colonies@.map_values(|c: Colony| c@)
    }
}

/// The direction labels of a colony are unique: at most one connection per
/// direction.
pub open spec fn conns_wf(conns: Seq<ConnModel>) -> bool {
    forall|i: int, j: int| 0 <= i < j < conns.len() ==> conns[i].dir != conns[j].dir
}

/// Well-formed graph: colony names are unique and each colony's direction
/// labels are unique.
pub open spec fn cols_wf(cols: Seq<ColonyModel>) -> bool {
    &&& forall|i: int, j: int| 0 <= i < j < cols.len() ==> cols[i].name != cols[j].name
    &&& forall|i: int| 0 <= i < cols.len() ==> conns_wf(#[trigger] cols[i].conns)
}

/// A colony of this name is live in the graph.
pub open spec fn has_colony(cols: Seq<ColonyModel>, name: Seq<char>) -> bool {
    exists|i: int| 0 <= i < cols.len() && cols[i].name == name
}

/// Every connection destination named by any live colony is itself a live
/// colony.
pub open spec fn no_dangling(cols: Seq<ColonyModel>) -> bool {
    forall|i: int, j: int|
        0 <= i < cols.len() && 0 <= j < cols[i].conns.len() ==> has_colony(
            cols,
            #[trigger] cols[i].conns[j].dest,
        )
}

/// The colony at this position, if any, has no outgoing connection: an agent
/// standing there is trapped.
pub open spec fn zero_exits(cols: Seq<ColonyModel>, pos: Seq<char>) -> bool {
    forall|i: int| 0 <= i < cols.len() && (#[trigger] cols[i]).name == pos ==> cols[i].conns.len()
        == 0
}

/// Some live colony named `from` has a connection whose destination is `to`.
pub open spec fn is_exit(cols: Seq<ColonyModel>, from: Seq<char>, to: Seq<char>) -> bool {
    exists|i: int, j: int|
        0 <= i < cols.len() && (#[trigger] cols[i]).name == from && 0 <= j < cols[i].conns.len()
            && (#[trigger] cols[i].conns[j]).dest == to
}

/// The connections that survive once the colony named `gone` is removed:
/// every connection pointing at `gone` is dropped, the rest keep their order.
pub open spec fn prune_conns(conns: Seq<ConnModel>, gone: Seq<char>) -> Seq<ConnModel>
    decreases conns.len(),
{
    if conns.len() == 0 {
        Seq::empty()
    } else if conns.last().dest == gone {
        prune_conns(conns.drop_last(), gone)
    } else {
        prune_conns(conns.drop_last(), gone).push(conns.last())
    }
}

/// The whole-graph effect of removing the colony named `gone`: that colony
/// disappears and every other colony loses its connections into it.
pub open spec fn remove_model(cols: Seq<ColonyModel>, gone: Seq<char>) -> Seq<ColonyModel>
    decreases cols.len(),
{
    if cols.len() == 0 {
        Seq::empty()
    } else if cols.last().name == gone {
        remove_model(cols.drop_last(), gone)
    } else {
        remove_model(cols.drop_last(), gone).push(
            ColonyModel {
                name: cols.last().name,
                conns: prune_conns(cols.last().conns, gone),
            },
        )
    }
}

/// The index of the first colony with this name, or -1 if there is none.
pub open spec fn name_index(cols: Seq<ColonyModel>, name: Seq<char>) -> int
    decreases cols.len(),
{
    if cols.len() == 0 {
        -1
    } else if cols[0].name == name {
        0
    } else {
        let r = name_index(cols.drop_first(), name);
        if r == -1 {
            -1
        } else {
            1 + r
        }
    }
}

/// Insert-or-replace: a colony with a fresh name is appended; one whose name
/// is already present replaces the first colony of that name.
pub open spec fn set_colony_model(cols: Seq<ColonyModel>, c: ColonyModel) -> Seq<ColonyModel> {
    let i = name_index(cols, c.name);
    if i == -1 {
        cols.push(c)
    } else {
        cols.update(i, c)
    }
}

/// What `name_index` finds: -1 exactly when the name is absent, else the
/// first index carrying the name.
pub proof fn lemma_name_index(cols: Seq<ColonyModel>, name: Seq<char>)
    ensures
        name_index(cols, name) == -1 <==> !has_colony(cols, name),
        name_index(cols, name) != -1 ==> {
            let i = name_index(cols, name);
            &&& 0 <= i < cols.len()
            &&& cols[i].name == name
            &&& forall|k: int| 0 <= k < i ==> (#[trigger] cols[k]).name != name
        },
    decreases cols.len(),
{
    if cols.len() > 0 && cols[0].name != name {
        lemma_name_index(cols.drop_first(), name);
        let d = cols.drop_first();
        assert(forall|i: int| 0 < i < cols.len() ==> #[trigger] cols[i] == d[i - 1]);
        if name_index(d, name) == -1 {
            assert(!has_colony(cols, name)) by {
                if has_colony(cols, name) {
                    let i = choose|i: int| 0 <= i < cols.len() && cols[i].name == name;
                    assert(d[i - 1].name == name);
                }
            }
        } else {
            assert(has_colony(cols, name)) by {
                let j = name_index(d, name);
                assert(cols[j + 1].name == name);
            }
        }
    }
}

/// Facts about pruning: the result is no longer than the input, none of its
/// connections point at the removed name, each comes from the input, every
/// input connection not pointing at the removed name survives, and unique
/// direction labels stay unique.
pub proof fn lemma_prune_conns(conns: Seq<ConnModel>, gone: Seq<char>)
    ensures
        prune_conns(conns, gone).len() <= conns.len(),
        forall|j: int|
            0 <= j < prune_conns(conns, gone).len() ==> (#[trigger] prune_conns(conns, gone)[j]).dest
                != gone && exists|i: int|
                0 <= i < conns.len() && conns[i] == prune_conns(conns, gone)[j],
        forall|i: int|
            0 <= i < conns.len() && (#[trigger] conns[i]).dest != gone ==> exists|j: int|
                0 <= j < prune_conns(conns, gone).len() && prune_conns(conns, gone)[j] == conns[i],
        conns_wf(conns) ==> conns_wf(prune_conns(conns, gone)),
    decreases conns.len(),
{
    if conns.len() > 0 {
        let dl = conns.drop_last();
        lemma_prune_conns(dl, gone);
        let p = prune_conns(conns, gone);
        let pd = prune_conns(dl, gone);
        assert(forall|i: int| 0 <= i < dl.len() ==> #[trigger] dl[i] == conns[i]);
        if conns.last().dest != gone {
            assert(p == pd.push(conns.last()));
            assert forall|i: int|
                0 <= i < conns.len() && (#[trigger] conns[i]).dest != gone implies exists|j: int|
                0 <= j < p.len() && p[j] == conns[i] by {
                if i < conns.len() - 1 {
                    let j = choose|j: int| 0 <= j < pd.len() && pd[j] == dl[i];
                    assert(p[j] == conns[i]);
                } else {
                    assert(p[p.len() - 1] == conns[i]);
                }
            }
            assert(forall|j: int|
                0 <= j < p.len() ==> (#[trigger] p[j]).dest != gone && exists|i: int|
                    0 <= i < conns.len() && conns[i] == p[j]) by {
                assert forall|j: int| 0 <= j < p.len() implies (#[trigger] p[j]).dest != gone
                    && exists|i: int| 0 <= i < conns.len() && conns[i] == p[j] by {
                    if j < pd.len() {
                        let i = choose|i: int| 0 <= i < dl.len() && dl[i] == pd[j];
                        assert(conns[i] == p[j]);
                    } else {
                        assert(conns[conns.len() - 1] == p[j]);
                    }
                }
            }
            if conns_wf(conns) {
                assert(conns_wf(dl));
                assert(conns_wf(p)) by {
                    assert forall|a: int, b: int| 0 <= a < b < p.len() implies p[a].dir
                        != p[b].dir by {
                        if b < pd.len() {
                        } else {
                            let i = choose|i: int| 0 <= i < dl.len() && dl[i] == pd[a];
                            assert(conns[i].dir != conns[conns.len() - 1].dir);
                        }
                    }
                }
            }
        } else {
            assert forall|i: int|
                0 <= i < conns.len() && (#[trigger] conns[i]).dest != gone implies exists|j: int|
                0 <= j < p.len() && p[j] == conns[i] by {
                let j = choose|j: int| 0 <= j < pd.len() && pd[j] == dl[i];
                assert(p[j] == conns[i]);
            }
            if conns_wf(conns) {
                assert(conns_wf(dl));
            }
        }
    }
}

/// Facts about whole-colony removal: the graph shrinks or keeps its size, the
/// removed name is gone, every surviving colony is an input colony with its
/// connections pruned, every input colony of another name survives, and
/// well-formedness is preserved.
pub proof fn lemma_remove_model(cols: Seq<ColonyModel>, gone: Seq<char>)
    ensures
        remove_model(cols, gone).len() <= cols.len(),
        has_colony(cols, gone) ==> remove_model(cols, gone).len() < cols.len(),
        forall|j: int|
            0 <= j < remove_model(cols, gone).len() ==> (#[trigger] remove_model(cols, gone)[j]).name
                != gone && exists|i: int|
                0 <= i < cols.len() && cols[i].name == remove_model(cols, gone)[j].name
                    && remove_model(cols, gone)[j].conns == prune_conns(cols[i].conns, gone),
        forall|i: int|
            0 <= i < cols.len() && (#[trigger] cols[i]).name != gone ==> has_colony(
                remove_model(cols, gone),
                cols[i].name,
            ),
        forall|m: Seq<char>|
            has_colony(remove_model(cols, gone), m) <==> has_colony(cols, m) && m != gone,
        cols_wf(cols) ==> cols_wf(remove_model(cols, gone)),
    decreases cols.len(),
{
    if cols.len() > 0 {
        let dl = cols.drop_last();
        lemma_remove_model(dl, gone);
        lemma_prune_conns(cols.last().conns, gone);
        let r = remove_model(cols, gone);
        let rd = remove_model(dl, gone);
        assert(forall|i: int| 0 <= i < dl.len() ==> #[trigger] dl[i] == cols[i]);
        if cols.last().name == gone {
            assert(r == rd);
            assert forall|m: Seq<char>| has_colony(r, m) <==> has_colony(cols, m) && m
                != gone by {
                if has_colony(cols, m) && m != gone {
                    let i = choose|i: int| 0 <= i < cols.len() && cols[i].name == m;
                    assert(dl[i].name == m);
                }
                if has_colony(dl, m) {
                    let i = choose|i: int| 0 <= i < dl.len() && dl[i].name == m;
                    assert(cols[i].name == m);
                }
            }
        } else {
            let pushed = ColonyModel {
                name: cols.last().name,
                conns: prune_conns(cols.last().conns, gone),
            };
            assert(r == rd.push(pushed));
            if has_colony(cols, gone) {
                assert(has_colony(dl, gone)) by {
                    let i = choose|i: int| 0 <= i < cols.len() && cols[i].name == gone;
                    assert(dl[i].name == gone);
                }
            }
            assert forall|j: int| 0 <= j < r.len() implies (#[trigger] r[j]).name != gone
                && exists|i: int|
                0 <= i < cols.len() && cols[i].name == r[j].name && r[j].conns == prune_conns(
                    cols[i].conns,
                    gone,
                ) by {
                if j < rd.len() {
                    let i = choose|i: int|
                        0 <= i < dl.len() && dl[i].name == rd[j].name && rd[j].conns
                            == prune_conns(dl[i].conns, gone);
                    assert(cols[i].name == r[j].name && r[j].conns == prune_conns(
                        cols[i].conns,
                        gone,
                    ));
                } else {
                    assert(cols[cols.len() - 1].name == r[j].name);
                }
            }
            assert forall|m: Seq<char>| has_colony(r, m) <==> has_colony(cols, m) && m
                != gone by {
                if has_colony(cols, m) && m != gone {
                    let i = choose|i: int| 0 <= i < cols.len() && cols[i].name == m;
                    if i < dl.len() {
                        assert(dl[i].name == m);
                        let j = choose|j: int| 0 <= j < rd.len() && rd[j].name == m;
                        assert(r[j].name == m);
                    } else {
                        assert(r[r.len() - 1].name == m);
                    }
                }
                if has_colony(r, m) {
                    let j = choose|j: int| 0 <= j < r.len() && r[j].name == m;
                    assert(r[j].name != gone);
                }
            }
            if cols_wf(cols) {
                assert(cols_wf(dl));
                assert(cols_wf(r)) by {
                    assert forall|a: int, b: int| 0 <= a < b < r.len() implies r[a].name
                        != r[b].name by {
                        if b == r.len() - 1 {
                            let i = choose|i: int|
                                0 <= i < dl.len() && dl[i].name == rd[a].name && rd[a].conns
                                    == prune_conns(dl[i].conns, gone);
                            assert(cols[i].name != cols[cols.len() - 1].name);
                        }
                    }
                }
            }
        }
    }
}

/// Law: removal never creates a dangling reference. If every connection of
/// the graph points at a live colony, the same holds after any colony is
/// removed, because the removal also drops every connection into it.
pub proof fn lemma_remove_model_no_dangling(cols: Seq<ColonyModel>, gone: Seq<char>)
    requires
        no_dangling(cols),
    ensures
        no_dangling(remove_model(cols, gone)),
{
    lemma_remove_model(cols, gone);
    let r = remove_model(cols, gone);
    assert forall|i: int, j: int| 0 <= i < r.len() && 0 <= j < r[i].conns.len() implies has_colony(
        r,
        #[trigger] r[i].conns[j].dest,
    ) by {
        let k = choose|k: int|
            0 <= k < cols.len() && cols[k].name == r[i].name && r[i].conns == prune_conns(
                cols[k].conns,
                gone,
            );
        lemma_prune_conns(cols[k].conns, gone);
        let d = r[i].conns[j].dest;
        assert(d != gone);
        let j2 = choose|j2: int| 0 <= j2 < cols[k].conns.len() && cols[k].conns[j2] == r[i].conns[j];
        assert(has_colony(cols, d));
    }
}

/// A colony without exits never regains one: pruning only removes
/// connections, so a position that traps an agent keeps trapping it after any
/// removal (unless its own colony is the one removed).
pub proof fn lemma_remove_model_zero_exits(cols: Seq<ColonyModel>, gone: Seq<char>, pos: Seq<char>)
    requires
        zero_exits(cols, pos),
    ensures
        zero_exits(remove_model(cols, gone), pos),
{
    lemma_remove_model(cols, gone);
    let r = remove_model(cols, gone);
    assert forall|i: int| 0 <= i < r.len() && (#[trigger] r[i]).name == pos implies r[i].conns.len()
        == 0 by {
        let k = choose|k: int|
            0 <= k < cols.len() && cols[k].name == r[i].name && r[i].conns == prune_conns(
                cols[k].conns,
                gone,
            );
        lemma_prune_conns(cols[k].conns, gone);
    }
}

impl Graph {
    /// Well-formedness of the store.
    pub open spec fn wf(&self) -> bool {
        cols_wf(self@)
    }

    /// An empty store.
    pub fn new() -> (g: Graph)
        ensures
            g@ =~= Seq::<ColonyModel>::empty(),
            g.wf(),
    {
        Graph { colonies: Vec::new() }
    }

    /// Lookup by name: the index of the colony with this name, or `None` if
    /// no live colony has it.
    pub fn find(&self, name: &String) -> (r: Option<usize>)
        ensures
            match r {
                Some(i) => i < self@.len() && self@[i as int].name == name@ && forall|k: int|
                    0 <= k < i ==> (#[trigger] self@[k]).name != name@,
                None => !has_colony(self@, name@),
            },
    {
        let n = self.colonies.len();
        let mut i: usize = 0;
        while i < n
            invariant
                n == self@.len(),
                i <= n,
                forall|k: int| 0 <= k < i ==> self@[k].name != name@,
            decreases n - i,
        {
            if self.colonies[i].name == *name {
                return Some(i);
            }
            i = i + 1;
        }
        None
    }

    /// The connections currently recorded for this colony, or `None` if no
    /// live colony has the name. An empty vector is a dead end.
    pub fn available_exits<'a>(&'a self, name: &String) -> (r: Option<&'a Vec<Conn>>)
        ensures
            match r {
                Some(v) => exists|i: int|
                    0 <= i < self@.len() && (#[trigger] self@[i]).name == name@ && v@.map_values(
                        |c: Conn| c@,
                    ) == self@[i].conns,
                None => !has_colony(self@, name@),
            },
    {
        match self.find(name) {
            Some(i) => Some(&self.colonies[i].connections),
            None => None,
        }
    }

    /// Insert-or-replace a colony, keyed by its name.
    pub fn set_colony(&mut self, c: Colony)
        ensures
            final(self)@ == set_colony_model(old(self)@, c@),
            old(self).wf() && conns_wf(c@.conns) ==> final(self).wf(),
    {
        proof {
            lemma_name_index(self@, c@.name);
        }
        match self.find(&c.name) {
            Some(i) => {
                proof {
                    let ix = name_index(self@, c@.name);
                    assert(ix == i as int) by {
                        if ix < i as int {
                            assert(self@[ix].name == c@.name);
                        }
                        if ix > i as int {
                            assert(self@[i as int].name != c@.name);
                        }
                    }
                }
                let ghost before = self@;
                let _replaced = self.colonies.remove(i);
                self.colonies.insert(i, c);
                proof {
                    assert(self@ =~= before.update(i as int, c@));
                    if old(self).wf() && conns_wf(c@.conns) {
                        assert(cols_wf(self@)) by {
                            assert(forall|k: int|
                                0 <= k < self@.len() && k != i as int ==> #[trigger] self@[k]
                                    == before[k]);
                        }
                    }
                }
            },
            None => {
                self.colonies.push(c);
                proof {
                    assert(self@ =~= old(self)@.push(c@));
                    if old(self).wf() && conns_wf(c@.conns) {
                        assert(cols_wf(self@)) by {
                            assert(forall|k: int|
                                0 <= k < old(self)@.len() ==> #[trigger] self@[k] == old(
                                    self,
                                )@[k]);
                        }
                    }
                }
            },
        }
    }

    /// Delete the colony with this name, then drop every remaining
    /// connection whose destination names it: the cascading cleanup that
    /// keeps the store free of dangling references.
    pub fn remove_colony(&mut self, name: &String)
        ensures
            final(self)@ == remove_model(old(self)@, name@),
            final(self)@.len() <= old(self)@.len(),
            !has_colony(final(self)@, name@),
            forall|m: Seq<char>|
                has_colony(final(self)@, m) <==> has_colony(old(self)@, m) && m != name@,
            old(self).wf() ==> final(self).wf(),
    {
        let ghost orig = self@;
        let mut out: Vec<Colony> = Vec::new();
        let n = self.colonies.len();
        let mut i: usize = 0;
        while i < n
            invariant
                n == self.colonies@.len(),
                i <= n,
                self == old(self),
                out@.map_values(|c: Colony| c@) == remove_model(self@.take(i as int), name@),
            decreases n - i,
        {
            let ghost pre = out@.map_values(|c: Colony| c@);
            let c = &self.colonies[i];
            let same = c.name == *name;
            if !same {
                let pruned = prune_vec(&c.connections, name);
                let nc = Colony { name: c.name.clone(), connections: pruned };
                proof {
                    assert(nc@ == ColonyModel {
                        name: self@[i as int].name,
                        conns: prune_conns(self@[i as int].conns, name@),
                    });
                }
                out.push(nc);
            }
            i = i + 1;
            proof {
                assert(self@.take(i as int).drop_last() =~= self@.take(i as int - 1));
                assert(self@.take(i as int).last() == self@[i as int - 1]);
                if !same {
                    assert(out@.map_values(|c: Colony| c@) =~= pre.push(
                        ColonyModel {
                            name: self@[i as int - 1].name,
                            conns: prune_conns(self@[i as int - 1].conns, name@),
                        },
                    ));
                }
            }
        }
        self.colonies = out;
        proof {
            assert(orig.take(n as int) =~= orig);
            lemma_remove_model(orig, name@);
        }
    }
}

/// The connections that survive pruning of those into the removed colony.
fn prune_vec(conns: &Vec<Conn>, gone: &String) -> (out: Vec<Conn>)
    ensures
        out@.map_values(|c: Conn| c@) == prune_conns(conns@.map_values(|c: Conn| c@), gone@),
{
    let mut out: Vec<Conn> = Vec::new();
    let n = conns.len();
    let mut i: usize = 0;
    while i < n
        invariant
            n == conns@.len(),
            i <= n,
            out@.map_values(|c: Conn| c@) == prune_conns(
                conns@.map_values(|c: Conn| c@).take(i as int),
                gone@,
            ),
        decreases n - i,
    {
        let ghost m = conns@.map_values(|c: Conn| c@);
        let ghost pre = out@.map_values(|c: Conn| c@);
        let same = conns[i].dest == *gone;
        if !same {
            let nc = Conn { dir: conns[i].dir.clone(), dest: conns[i].dest.clone() };
            proof {
                assert(nc@ == m[i as int]);
            }
            out.push(nc);
        }
        i = i + 1;
        proof {
            assert(m.take(i as int).drop_last() =~= m.take(i as int - 1));
            assert(m.take(i as int).last() == m[i as int - 1]);
            if !same {
                assert(out@.map_values(|c: Conn| c@) =~= pre.push(m[i as int - 1]));
            }
        }
    }
    proof {
        let m = conns@.map_values(|c: Conn| c@);
        assert(m.take(n as int) =~= m);
    }
    out
}

} // verus!
