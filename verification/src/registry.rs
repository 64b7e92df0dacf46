//! The registry: the authoritative mapping from id to tunnel definition.
//!
//! The registry enforces id uniqueness, answers lookups and substring
//! searches, and converts itself to and from the durable storage text.
//! Its mathematical model is a map from id to [`TunnelModel`].

use vstd::prelude::*;
use crate::codec;
use crate::codec::{enc_pretty_store, enc_store, parse_store};
use crate::tunnel::{TunnelDefinition, TunnelModel};

verus! {

/// Everything a registry operation can report as a failure.
///
/// `SourceNotFound` and `WriteError` describe I/O failures on import and
/// export; the surrounding program maps its file errors to them.
#[derive(Clone, Copy, Debug, PartialEq, Eq, Structural)]
pub enum RegistryError {
    DuplicateId,
    NotFound,
    CorruptStore,
    SourceNotFound,
    WriteError,
}

/// Fold a run of definitions into a map, later entries overwriting
/// earlier ones with the same id (last writer wins).
pub open spec fn merge_defs(m: Map<u64, TunnelModel>, ds: Seq<TunnelModel>) -> Map<
    u64,
    TunnelModel,
>
    decreases ds.len(),
{
    if ds.len() == 0 {
        m
    } else {
        merge_defs(m, ds.drop_last()).insert(ds.last().id, ds.last())
    }
}

/// The map a run of definitions denotes on its own.
pub open spec fn defs_map(ds: Seq<TunnelModel>) -> Map<u64, TunnelModel> {
    merge_defs(Map::empty(), ds)
}

/// No two definitions in the run share an id.
pub open spec fn distinct_ids(ds: Seq<TunnelModel>) -> bool {
    forall|x: int, y: int|
        0 <= x < y < ds.len() ==> (#[trigger] ds[x]).id != (#[trigger] ds[y]).id
}

/// `n` occurs in `h` starting at position `q`.
pub open spec fn is_substring_at(h: Seq<char>, n: Seq<char>, q: int) -> bool {
    0 <= q && q + n.len() <= h.len() && h.subrange(q, q + n.len()) == n
}

/// `n` occurs somewhere in `h` (the empty sequence occurs everywhere).
pub open spec fn contains_substring(h: Seq<char>, n: Seq<char>) -> bool {
    exists|q: int| is_substring_at(h, n, q)
}

/// A definition matches a query when its name or its hostname contains
/// the query as a substring.
pub open spec fn matches_query(d: TunnelModel, q: Seq<char>) -> bool {
    contains_substring(d.name, q) || contains_substring(d.hostname, q)
}

fn match_at(h: &str, n: &str, q: usize, hl: usize, nl: usize) -> (r: bool)
    requires
        hl == h@.len(),
        nl == n@.len(),
        q + nl <= hl,
    ensures
        r == is_substring_at(h@, n@, q as int),
{
    let mut j: usize = 0;
    while j < nl
        invariant
            hl == h@.len(),
            nl == n@.len(),
            q + nl <= hl,
            0 <= j <= nl,
            forall|y: int| 0 <= y < j ==> h@[q + y] == n@[y],
        decreases nl - j,
    {
        if h.get_char(q + j) != n.get_char(j) {
            proof {
                if is_substring_at(h@, n@, q as int) {
                    assert(h@.subrange(q as int, q + nl as int)[j as int] == n@[j as int]);
                }
            }
            return false;
        }
        j = j + 1;
    }
    proof {
        assert(h@.subrange(q as int, q + nl as int) =~= n@);
    }
    true
}

/// Does `h` contain `n` as a (case-sensitive) substring?
fn str_contains(h: &str, n: &str) -> (r: bool)
    ensures
        r == contains_substring(h@, n@),
{
    let hl = h.unicode_len();
    let nl = n.unicode_len();
    if nl > hl {
        proof {
            assert forall|q: int| !is_substring_at(h@, n@, q) by {}
        }
        return false;
    }
    let bound = hl - nl;
    let mut q: usize = 0;
    loop
        invariant
            hl == h@.len(),
            nl == n@.len(),
            nl <= hl,
            bound == hl - nl,
            0 <= q <= bound,
            forall|x: int| 0 <= x < q ==> !is_substring_at(h@, n@, x),
        decreases bound - q,
    {
        if match_at(h, n, q, hl, nl) {
            return true;
        }
        if q == bound {
            proof {
                assert forall|x: int| !is_substring_at(h@, n@, x) by {
                    if 0 <= x <= q {
                    }
                }
            }
            return false;
        }
        q = q + 1;
    }
}

proof fn lemma_merge_contains(m: Map<u64, TunnelModel>, ds: Seq<TunnelModel>, k: u64)
    ensures
        merge_defs(m, ds).contains_key(k) <==> (m.contains_key(k) || exists|q: int|
            0 <= q < ds.len() && (#[trigger] ds[q]).id == k),
    decreases ds.len(),
{
    if ds.len() > 0 {
        let dl = ds.drop_last();
        lemma_merge_contains(m, dl, k);
        if ds.last().id == k {
            assert(ds[ds.len() - 1].id == k);
        } else {
            if exists|q: int| 0 <= q < ds.len() && (#[trigger] ds[q]).id == k {
                let q = choose|q: int| 0 <= q < ds.len() && (#[trigger] ds[q]).id == k;
                assert(dl[q] == ds[q]);
            }
            if exists|q: int| 0 <= q < dl.len() && (#[trigger] dl[q]).id == k {
                let q = choose|q: int| 0 <= q < dl.len() && (#[trigger] dl[q]).id == k;
                assert(ds[q] == dl[q]);
            }
        }
    }
}

proof fn lemma_merge_index(m: Map<u64, TunnelModel>, ds: Seq<TunnelModel>, q: int)
    requires
        distinct_ids(ds),
        0 <= q < ds.len(),
    ensures
        merge_defs(m, ds).contains_key(ds[q].id),
        merge_defs(m, ds)[ds[q].id] == ds[q],
    decreases ds.len(),
{
    if q == ds.len() - 1 {
    } else {
        let dl = ds.drop_last();
        assert(distinct_ids(dl));
        assert(dl[q] == ds[q]);
        lemma_merge_index(m, dl, q);
        assert(ds[q].id != ds[ds.len() - 1].id);
    }
}

proof fn lemma_merge_push(m: Map<u64, TunnelModel>, ds: Seq<TunnelModel>, d: TunnelModel)
    ensures
        merge_defs(m, ds.push(d)) == merge_defs(m, ds).insert(d.id, d),
{
    assert(ds.push(d).drop_last() =~= ds);
    assert(ds.push(d).last() == d);
}

proof fn lemma_defs_map_remove(ds: Seq<TunnelModel>, q: int)
    requires
        distinct_ids(ds),
        0 <= q < ds.len(),
    ensures
        defs_map(ds.remove(q)) == defs_map(ds).remove(ds[q].id),
    decreases ds.len(),
{
    let id = ds[q].id;
    let dl = ds.drop_last();
    let last = ds.last();
    assert(distinct_ids(dl));
    if q == ds.len() - 1 {
        assert(ds.remove(q) =~= dl);
        lemma_merge_contains(Map::empty(), dl, id);
        assert(!defs_map(dl).contains_key(id));
        assert(defs_map(dl).insert(id, last).remove(id) =~= defs_map(dl));
    } else {
        assert(ds.remove(q).drop_last() =~= dl.remove(q));
        assert(ds.remove(q).last() == last);
        assert(dl[q] == ds[q]);
        lemma_defs_map_remove(dl, q);
        assert(last.id != id);
        assert(defs_map(dl).insert(last.id, last).remove(id) =~= defs_map(dl).remove(id).insert(
            last.id,
            last,
        ));
    }
}

proof fn lemma_remove_keeps_entry_facts(before: Seq<TunnelModel>, q: int)
    requires
        distinct_ids(before),
        forall|x: int| 0 <= x < before.len() ==> (#[trigger] before[x]).wf() && before[x].bounded(),
        0 <= q < before.len(),
    ensures
        distinct_ids(before.remove(q)),
        forall|x: int|
            0 <= x < before.remove(q).len() ==> (#[trigger] before.remove(q)[x]).wf()
                && before.remove(q)[x].bounded() && before.remove(q)[x].id != before[q].id,
{
    let after = before.remove(q);
    assert forall|x: int, y: int|
        0 <= x < y < after.len() implies (#[trigger] after[x]).id != (#[trigger] after[y]).id by {
        let ox: int = if x < q {
            x
        } else {
            x + 1
        };
        let oy: int = if y < q {
            y
        } else {
            y + 1
        };
        assert(after[x] == before[ox]);
        assert(after[y] == before[oy]);
    }
    assert forall|x: int|
        0 <= x < after.len() implies (#[trigger] after[x]).wf() && after[x].bounded() && after[x].id
        != before[q].id by {
        let ox: int = if x < q {
            x
        } else {
            x + 1
        };
        assert(after[x] == before[ox]);
    }
}

/// The registry itself: a vector of definitions with pairwise distinct
/// ids, modelled as the map from id to definition.
pub struct Registry {
    tunnels: Vec<TunnelDefinition>,
}

impl View for Registry {
    type V = Map<u64, TunnelModel>;

    closed spec fn view(&self) -> Map<u64, TunnelModel> {
        defs_map(self.entries())
    }
}

impl Registry {
    /// The stored definitions in the registry's own (unspecified) order.
    pub closed spec fn entries(&self) -> Seq<TunnelModel> {
        self.tunnels@.map_values(|d: TunnelDefinition| d@)
    }

    /// The registry's invariant: ids are pairwise distinct and every
    /// entry is well formed.
    pub closed spec fn inv(&self) -> bool {
        &&& distinct_ids(self.entries())
        &&& forall|q: int|
            0 <= q < self.entries().len() ==> (#[trigger] self.entries()[q]).wf()
                && self.entries()[q].bounded()
        &&& self.entries().len() <= u64::MAX
    }

    /// An empty registry.
    pub fn new() -> (r: Registry)
        ensures
            r.inv(),
            r@ == Map::<u64, TunnelModel>::empty(),
            r.entries().len() == 0,
    {
        let r = Registry { tunnels: Vec::new() };
        proof {
            assert(r.entries() =~= Seq::<TunnelModel>::empty());
        }
        r
    }

    fn find_index(&self, id: u64) -> (r: Option<usize>)
        ensures
            match r {
                Some(q) => q < self.entries().len() && self.entries()[q as int].id == id,
                None => forall|q: int|
                    0 <= q < self.entries().len() ==> (#[trigger] self.entries()[q]).id != id,
            },
    {
        let mut q: usize = 0;
        while q < self.tunnels.len()
            invariant
                q <= self.entries().len(),
                self.entries().len() == self.tunnels@.len(),
                forall|x: int| 0 <= x < q ==> (#[trigger] self.entries()[x]).id != id,
            decreases self.tunnels@.len() - q,
        {
            if self.tunnels[q].id == id {
                return Some(q);
            }
            q = q + 1;
        }
        None
    }

    /// Insert a new definition. Fails with `DuplicateId`, changing
    /// nothing, when the id is already present; otherwise the map gains
    /// exactly this definition under its id.
    pub fn add(&mut self, d: TunnelDefinition) -> (r: Result<(), RegistryError>)
        requires
            old(self).inv(),
            d@.wf(),
        ensures
            final(self).inv(),
            old(self)@.contains_key(d.id) ==> r == Err::<(), RegistryError>(
                RegistryError::DuplicateId,
            ) && *final(self) == *old(self),
            !old(self)@.contains_key(d.id) ==> r == Ok::<(), RegistryError>(()) && final(self)@
                == old(self)@.insert(d.id, d@),
    {
        proof {
            lemma_merge_contains(Map::empty(), self.entries(), d.id);
        }
        // Measuring each text field shows its length fits in the store.
        let _nl = d.name.as_str().unicode_len();
        let _ul = d.username.as_str().unicode_len();
        let _hl = d.hostname.as_str().unicode_len();
        match &d.credential {
            crate::tunnel::AuthCredential::KeyAuth { key_path: Some(p) } => {
                let _pl = p.as_str().unicode_len();
            },
            crate::tunnel::AuthCredential::PasswordAuth { saved_password: Some(p) } => {
                let _pl = p.as_str().unicode_len();
            },
            _ => {},
        }
        assert(d@.bounded());
        match self.find_index(d.id) {
            Some(_) => Err(RegistryError::DuplicateId),
            None => {
                let ghost before = self.entries();
                self.tunnels.push(d);
                let n = self.tunnels.len();
                proof {
                    assert(self.entries().len() == n);
                    assert(self.entries() =~= before.push(d@));
                    lemma_merge_push(Map::empty(), before, d@);
                    let n = self.entries().len();
                    assert(forall|x: int, y: int|
                        0 <= x < y < n ==> (#[trigger] self.entries()[x]).id
                            != (#[trigger] self.entries()[y]).id);
                }
                Ok(())
            },
        }
    }

    /// Delete the definition with this id. Fails with `NotFound`,
    /// changing nothing, when the id is absent; otherwise the map loses
    /// exactly that key.
    pub fn remove(&mut self, id: u64) -> (r: Result<(), RegistryError>)
        requires
            old(self).inv(),
        ensures
            final(self).inv(),
            old(self)@.contains_key(id) ==> r == Ok::<(), RegistryError>(()) && final(self)@
                == old(self)@.remove(id),
            !old(self)@.contains_key(id) ==> r == Err::<(), RegistryError>(RegistryError::NotFound)
                && *final(self) == *old(self),
    {
        proof {
            lemma_merge_contains(Map::empty(), self.entries(), id);
        }
        match self.find_index(id) {
            None => Err(RegistryError::NotFound),
            Some(q) => {
                let ghost before = self.entries();
                self.tunnels.remove(q);
                proof {
                    assert(self.entries() =~= before.remove(q as int));
                    lemma_defs_map_remove(before, q as int);
                    lemma_remove_keeps_entry_facts(before, q as int);
                }
                Ok(())
            },
        }
    }

    /// Look one definition up by id.
    pub fn get(&self, id: u64) -> (r: Option<&TunnelDefinition>)
        requires
            self.inv(),
        ensures
            match r {
                Some(d) => self@.contains_key(id) && d@ == self@[id],
                None => !self@.contains_key(id),
            },
    {
        proof {
            lemma_merge_contains(Map::empty(), self.entries(), id);
        }
        match self.find_index(id) {
            None => None,
            Some(q) => {
                proof {
                    lemma_merge_index(Map::empty(), self.entries(), q as int);
                }
                Some(&self.tunnels[q])
            },
        }
    }

    /// All stored definitions, in the registry's own order: one entry
    /// per stored id, no repeats. Each listed definition is in the map
    /// under its id, and every key of the map is listed.
    pub fn list(&self) -> (r: &Vec<TunnelDefinition>)
        requires
            self.inv(),
        ensures
            r@.len() == self.entries().len(),
            forall|q: int| 0 <= q < r@.len() ==> (#[trigger] r@[q])@ == self.entries()[q],
            forall|q: int|
                0 <= q < r@.len() ==> self@.contains_key((#[trigger] r@[q])@.id) && self@[r@[q]@.id]
                    == r@[q]@,
            forall|k: u64|
                self@.contains_key(k) ==> exists|q: int|
                    0 <= q < r@.len() && (#[trigger] r@[q])@.id == k,
            forall|x: int, y: int|
                0 <= x < y < r@.len() ==> (#[trigger] r@[x])@.id != (#[trigger] r@[y])@.id,
    {
        proof {
            assert forall|x: int, y: int|
                0 <= x < y < self.tunnels@.len() implies (#[trigger] self.tunnels@[x])@.id
                != (#[trigger] self.tunnels@[y])@.id by {
                assert(self.entries()[x] == self.tunnels@[x]@);
                assert(self.entries()[y] == self.tunnels@[y]@);
            }
            assert forall|q: int|
                0 <= q < self.tunnels@.len() implies self@.contains_key(
                (#[trigger] self.tunnels@[q])@.id,
            ) && self@[self.tunnels@[q]@.id] == self.tunnels@[q]@ by {
                assert(self.entries()[q] == self.tunnels@[q]@);
                lemma_merge_index(Map::empty(), self.entries(), q);
            }
            assert forall|k: u64| self@.contains_key(k) implies exists|q: int|
                0 <= q < self.tunnels@.len() && (#[trigger] self.tunnels@[q])@.id == k by {
                lemma_merge_contains(Map::empty(), self.entries(), k);
                let q = choose|q: int|
                    0 <= q < self.entries().len() && (#[trigger] self.entries()[q]).id == k;
                assert(self.tunnels@[q]@.id == k);
            }
        }
        &self.tunnels
    }

    /// All definitions whose name or hostname contains `query` as a
    /// substring (case-sensitive): every returned definition matches and
    /// is stored, and every stored definition that matches is returned.
    /// No match is not an error: the result is then empty.
    pub fn search(&self, query: &str) -> (r: Vec<TunnelDefinition>)
        requires
            self.inv(),
        ensures
            forall|x: int|
                0 <= x < r@.len() ==> matches_query((#[trigger] r@[x])@, query@)
                    && self@.contains_key(r@[x]@.id) && self@[r@[x]@.id] == r@[x]@,
            forall|k: u64|
                self@.contains_key(k) && matches_query(self@[k], query@) ==> exists|x: int|
                    0 <= x < r@.len() && (#[trigger] r@[x])@.id == k,
            forall|x: int, y: int|
                0 <= x < y < r@.len() ==> (#[trigger] r@[x])@.id != (#[trigger] r@[y])@.id,
    {
        let mut out: Vec<TunnelDefinition> = Vec::new();
        let mut q: usize = 0;
        while q < self.tunnels.len()
            invariant
                self.inv(),
                q <= self.tunnels@.len(),
                self.entries().len() == self.tunnels@.len(),
                forall|x: int|
                    0 <= x < out@.len() ==> matches_query((#[trigger] out@[x])@, query@)
                        && self@.contains_key(out@[x]@.id) && self@[out@[x]@.id] == out@[x]@,
                forall|y: int|
                    0 <= y < q && matches_query(#[trigger] self.entries()[y], query@) ==> exists|
                        x: int,
                    | 0 <= x < out@.len() && (#[trigger] out@[x])@.id == self.entries()[y].id,
                forall|x: int|
                    0 <= x < out@.len() ==> exists|y: int|
                        0 <= y < q && (#[trigger] out@[x])@.id == self.entries()[y].id,
                forall|x1: int, x2: int|
                    0 <= x1 < x2 < out@.len() ==> (#[trigger] out@[x1])@.id
                        != (#[trigger] out@[x2])@.id,
            decreases self.tunnels@.len() - q,
        {
            let d = &self.tunnels[q];
            let ghost out0 = out@;
            proof {
                assert(self.entries()[q as int] == self.tunnels@[q as int]@);
            }
            let hit = str_contains(d.name.as_str(), query) || str_contains(
                d.hostname.as_str(),
                query,
            );
            if hit {
                proof {
                    lemma_merge_index(Map::empty(), self.entries(), q as int);
                }
                out.push(d.duplicate());
            }
            proof {
                assert forall|y: int|
                    0 <= y < q + 1 && matches_query(
                        #[trigger] self.entries()[y],
                        query@,
                    ) implies exists|x: int|
                    0 <= x < out@.len() && (#[trigger] out@[x])@.id == self.entries()[y].id by {
                    if y == q as int {
                        assert(out@[out@.len() - 1]@.id == self.entries()[y].id);
                    } else {
                        let xw = choose|x: int|
                            0 <= x < out0.len() && (#[trigger] out0[x])@.id == self.entries()[y].id;
                        assert(out@[xw] == out0[xw]);
                    }
                }
                assert forall|x: int| 0 <= x < out@.len() implies exists|y: int|
                    0 <= y < q + 1 && (#[trigger] out@[x])@.id == self.entries()[y].id by {
                    if x < out0.len() {
                        let yw = choose|y: int|
                            0 <= y < q && (#[trigger] out0[x])@.id == self.entries()[y].id;
                        assert(out@[x] == out0[x]);
                        assert(out@[x]@.id == self.entries()[yw].id);
                    } else {
                        assert(out@[x]@.id == self.entries()[q as int].id);
                    }
                }
                assert forall|x1: int, x2: int|
                    0 <= x1 < x2 < out@.len() implies (#[trigger] out@[x1])@.id
                    != (#[trigger] out@[x2])@.id by {
                    assert(out@[x1] == out0[x1]);
                    if x2 < out0.len() {
                        assert(out@[x2] == out0[x2]);
                    } else {
                        let yw = choose|y: int|
                            0 <= y < q && (#[trigger] out0[x1])@.id == self.entries()[y].id;
                        assert(self.entries()[yw].id != self.entries()[q as int].id);
                        assert(out@[x2]@.id == self.entries()[q as int].id);
                    }
                }
            }
            q = q + 1;
        }
        proof {
            assert forall|k: u64|
                self@.contains_key(k) && matches_query(self@[k], query@) implies exists|x: int|
                0 <= x < out@.len() && (#[trigger] out@[x])@.id == k by {
                lemma_merge_contains(Map::empty(), self.entries(), k);
                let y = choose|y: int|
                    0 <= y < self.entries().len() && (#[trigger] self.entries()[y]).id == k;
                lemma_merge_index(Map::empty(), self.entries(), y);
            }
        }
        out
    }

    /// The definitions flagged for auto-connect, in listing order, one
    /// entry per flagged id and none twice: the selection the startup
    /// sweep attempts exactly one connection for each of.
    pub fn auto_connect_definitions(&self) -> (r: Vec<TunnelDefinition>)
        requires
            self.inv(),
        ensures
            forall|x: int|
                0 <= x < r@.len() ==> (#[trigger] r@[x])@.auto_connect && self@.contains_key(
                    r@[x]@.id,
                ) && self@[r@[x]@.id] == r@[x]@,
            forall|k: u64|
                self@.contains_key(k) && self@[k].auto_connect ==> exists|x: int|
                    0 <= x < r@.len() && (#[trigger] r@[x])@.id == k,
            forall|x: int, y: int|
                0 <= x < y < r@.len() ==> (#[trigger] r@[x])@.id != (#[trigger] r@[y])@.id,
    {
        let mut out: Vec<TunnelDefinition> = Vec::new();
        let mut q: usize = 0;
        while q < self.tunnels.len()
            invariant
                self.inv(),
                q <= self.tunnels@.len(),
                self.entries().len() == self.tunnels@.len(),
                forall|x: int|
                    0 <= x < out@.len() ==> (#[trigger] out@[x])@.auto_connect
                        && self@.contains_key(out@[x]@.id) && self@[out@[x]@.id] == out@[x]@,
                forall|y: int|
                    0 <= y < q && (#[trigger] self.entries()[y]).auto_connect ==> exists|x: int|
                        0 <= x < out@.len() && (#[trigger] out@[x])@.id == self.entries()[y].id,
                forall|x: int|
                    0 <= x < out@.len() ==> exists|y: int|
                        0 <= y < q && (#[trigger] out@[x])@.id == self.entries()[y].id,
                forall|x1: int, x2: int|
                    0 <= x1 < x2 < out@.len() ==> (#[trigger] out@[x1])@.id
                        != (#[trigger] out@[x2])@.id,
            decreases self.tunnels@.len() - q,
        {
            let d = &self.tunnels[q];
            let ghost out0 = out@;
            proof {
                assert(self.entries()[q as int] == self.tunnels@[q as int]@);
            }
            if d.auto_connect {
                proof {
                    lemma_merge_index(Map::empty(), self.entries(), q as int);
                }
                out.push(d.duplicate());
            }
            proof {
                assert forall|y: int|
                    0 <= y < q + 1 && (#[trigger] self.entries()[y]).auto_connect implies exists|
                    x: int,
                |
                    0 <= x < out@.len() && (#[trigger] out@[x])@.id == self.entries()[y].id by {
                    if y == q as int {
                        assert(out@[out@.len() - 1]@.id == self.entries()[y].id);
                    } else {
                        let xw = choose|x: int|
                            0 <= x < out0.len() && (#[trigger] out0[x])@.id == self.entries()[y].id;
                        assert(out@[xw] == out0[xw]);
                    }
                }
                assert forall|x: int| 0 <= x < out@.len() implies exists|y: int|
                    0 <= y < q + 1 && (#[trigger] out@[x])@.id == self.entries()[y].id by {
                    if x < out0.len() {
                        let yw = choose|y: int|
                            0 <= y < q && (#[trigger] out0[x])@.id == self.entries()[y].id;
                        assert(out@[x] == out0[x]);
                        assert(out@[x]@.id == self.entries()[yw].id);
                    } else {
                        assert(out@[x]@.id == self.entries()[q as int].id);
                    }
                }
                assert forall|x1: int, x2: int|
                    0 <= x1 < x2 < out@.len() implies (#[trigger] out@[x1])@.id
                    != (#[trigger] out@[x2])@.id by {
                    assert(out@[x1] == out0[x1]);
                    if x2 < out0.len() {
                        assert(out@[x2] == out0[x2]);
                    } else {
                        let yw = choose|y: int|
                            0 <= y < q && (#[trigger] out0[x1])@.id == self.entries()[y].id;
                        assert(self.entries()[yw].id != self.entries()[q as int].id);
                        assert(out@[x2]@.id == self.entries()[q as int].id);
                    }
                }
            }
            q = q + 1;
        }
        proof {
            assert forall|k: u64|
                self@.contains_key(k) && self@[k].auto_connect implies exists|x: int|
                0 <= x < out@.len() && (#[trigger] out@[x])@.id == k by {
                lemma_merge_contains(Map::empty(), self.entries(), k);
                let y = choose|y: int|
                    0 <= y < self.entries().len() && (#[trigger] self.entries()[y]).id == k;
                lemma_merge_index(Map::empty(), self.entries(), y);
            }
        }
        out
    }

    /// The durable form of the whole registry: the text that both save
    /// and export write out. Parsing it back yields the entries exactly.
    pub fn store_text(&self) -> (out: Vec<char>)
        requires
            self.inv(),
        ensures
            out@ == enc_store(self.entries()),
            parse_store(out@) == Some(self.entries()),
            defs_map(self.entries()) == self@,
    {
        let out = codec::encode_store(&self.tunnels);
        proof {
            codec::lemma_store_round_trip(self.entries());
        }
        out
    }

    /// The export form of the whole registry: the same records as
    /// [`Registry::store_text`], one per line and indented for the
    /// operator to read. It parses back to the entries exactly, so an
    /// exported file can be imported again.
    pub fn export_text(&self) -> (out: Vec<char>)
        requires
            self.inv(),
        ensures
            out@ == enc_pretty_store(self.entries()),
            parse_store(out@) == Some(self.entries()),
            defs_map(self.entries()) == self@,
    {
        let out = codec::export_store(&self.tunnels);
        proof {
            codec::lemma_pretty_store_round_trip(self.entries());
        }
        out
    }

    /// Rebuild a registry from durable storage text. Succeeds exactly on
    /// well-formed store text; anything else is `CorruptStore`. Later
    /// records overwrite earlier ones with the same id.
    pub fn from_text(text: &Vec<char>) -> (r: Result<Registry, RegistryError>)
        ensures
            match r {
                Ok(reg) => parse_store(text@) matches Some(ds) && reg@ == defs_map(ds) && reg.inv(),
                Err(e) => e == RegistryError::CorruptStore && parse_store(text@) is None,
            },
    {
        let mut reg = Registry::new();
        match reg.import_text(text) {
            Ok(()) => {
                proof {
                    let ds = parse_store(text@).unwrap();
                    assert(merge_defs(Map::<u64, TunnelModel>::empty(), ds) == defs_map(ds));
                }
                Ok(reg)
            },
            Err(e) => Err(e),
        }
    }

    /// Merge the definitions of another store into this registry, later
    /// writer wins per id, leaving the registry untouched when the text
    /// is malformed.
    pub fn import_text(&mut self, text: &Vec<char>) -> (r: Result<(), RegistryError>)
        requires
            old(self).inv(),
        ensures
            final(self).inv(),
            match r {
                Ok(()) => parse_store(text@) matches Some(ds) && final(self)@ == merge_defs(
                    old(self)@,
                    ds,
                ),
                Err(e) => e == RegistryError::CorruptStore && parse_store(text@) is None
                    && *final(self) == *old(self),
            },
    {
        let defs = match codec::decode_store(text) {
            Some(v) => v,
            None => {
                return Err(RegistryError::CorruptStore);
            },
        };
        let ghost models = defs@.map_values(|d: TunnelDefinition| d@);
        let ghost base = old(self)@;
        let mut q: usize = 0;
        while q < defs.len()
            invariant
                self.inv(),
                q <= defs@.len(),
                models == defs@.map_values(|d: TunnelDefinition| d@),
                models.len() == defs@.len(),
                forall|t: int| 0 <= t < defs@.len() ==> (#[trigger] defs@[t])@.wf() && defs@[t]@.bounded(),
                self@ == merge_defs(base, models.subrange(0, q as int)),
            decreases defs@.len() - q,
        {
            let d = &defs[q];
            self.put(d.duplicate());
            proof {
                lemma_merge_push(base, models.subrange(0, q as int), models[q as int]);
                assert(models.subrange(0, q + 1 as int) =~= models.subrange(0, q as int).push(
                    models[q as int],
                ));
            }
            q = q + 1;
        }
        proof {
            assert(models.subrange(0, models.len() as int) =~= models);
        }
        Ok(())
    }

    /// Insert or replace: the map gains this definition under its id,
    /// overwriting any previous entry.
    fn put(&mut self, d: TunnelDefinition)
        requires
            old(self).inv(),
            d@.wf(),
            d@.bounded(),
        ensures
            final(self).inv(),
            final(self)@ == old(self)@.insert(d.id, d@),
    {
        proof {
            lemma_merge_contains(Map::empty(), self.entries(), d.id);
        }
        let ghost start = self@;
        match self.find_index(d.id) {
            None => {},
            Some(q) => {
                let ghost before = self.entries();
                self.tunnels.remove(q);
                proof {
                    assert(self.entries() =~= before.remove(q as int));
                    lemma_defs_map_remove(before, q as int);
                    lemma_remove_keeps_entry_facts(before, q as int);
                }
            },
        }
        proof {
            lemma_merge_contains(Map::empty(), self.entries(), d.id);
            assert(!self@.contains_key(d.id));
        }
        let ghost mid = self.entries();
        self.tunnels.push(d);
        let n = self.tunnels.len();
        proof {
            assert(self.entries().len() == n);
            assert(self.entries() =~= mid.push(d@));
            lemma_merge_push(Map::empty(), mid, d@);
            assert forall|x: int, y: int|
                0 <= x < y < self.entries().len() implies (#[trigger] self.entries()[x]).id
                != (#[trigger] self.entries()[y]).id by {
                if y < self.entries().len() - 1 {
                    assert(self.entries()[x] == mid[x]);
                    assert(self.entries()[y] == mid[y]);
                }
            }
            assert(self@ =~= start.insert(d.id, d@));
        }
    }

    /// Law: a run of definitions with pairwise distinct ids denotes a map
    /// holding exactly those definitions, each under its own id. Together
    /// with the postcondition of `add`, this says that adding fresh
    /// definitions and then listing them yields exactly what was added.
    pub proof fn lemma_added_definitions_exact(ds: Seq<TunnelModel>)
        requires
            distinct_ids(ds),
        ensures
            forall|q: int|
                0 <= q < ds.len() ==> defs_map(ds).contains_key((#[trigger] ds[q]).id) && defs_map(
                    ds,
                )[ds[q].id] == ds[q],
            forall|k: u64|
                defs_map(ds).contains_key(k) ==> exists|q: int|
                    0 <= q < ds.len() && (#[trigger] ds[q]).id == k,
    {
        assert forall|q: int|
            0 <= q < ds.len() implies defs_map(ds).contains_key((#[trigger] ds[q]).id) && defs_map(
            ds,
        )[ds[q].id] == ds[q] by {
            lemma_merge_index(Map::empty(), ds, q);
        }
        assert forall|k: u64| defs_map(ds).contains_key(k) implies exists|q: int|
            0 <= q < ds.len() && (#[trigger] ds[q]).id == k by {
            lemma_merge_contains(Map::empty(), ds, k);
        }
    }
}

} // verus!
