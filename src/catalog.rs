//! The catalog: the instruments of both series by identifier, built once and then only read.
use crate::continuity::{all_wf, continuous, reports_gap, validate_continuity, ContinuityError};
use crate::model::{AllBonds, Bond, BondId};
use crate::reader::{
    edo_label, extracted, extraction_fails, first_error, read_bonds, rod_label, rows_wf, Cell,
    ExtractError, EDO_YEARS, ROD_YEARS,
};
use vstd::prelude::*;

verus! {

/// Lexicographic order of identifiers, by character code.
pub open spec fn id_less(a: Seq<char>, b: Seq<char>) -> bool
    decreases a.len(),
{
    if a.len() == 0 {
        b.len() > 0
    } else if b.len() == 0 {
        false
    } else if a[0] != b[0] {
        (a[0] as int) < (b[0] as int)
    } else {
        id_less(a.drop_first(), b.drop_first())
    }
}

pub proof fn lemma_id_less_irreflexive(a: Seq<char>)
    ensures
        !id_less(a, a),
    decreases a.len(),
{
    if a.len() > 0 {
        lemma_id_less_irreflexive(a.drop_first());
    }
}

pub proof fn lemma_id_less_transitive(a: Seq<char>, b: Seq<char>, c: Seq<char>)
    requires
        id_less(a, b),
        id_less(b, c),
    ensures
        id_less(a, c),
    decreases a.len(),
{
    if a.len() > 0 && b.len() > 0 && c.len() > 0 && a[0] == b[0] && b[0] == c[0] {
        lemma_id_less_transitive(a.drop_first(), b.drop_first(), c.drop_first());
    }
}

pub proof fn lemma_id_less_total(a: Seq<char>, b: Seq<char>)
    requires
        a != b,
    ensures
        id_less(a, b) || id_less(b, a),
    decreases a.len(),
{
    if a.len() > 0 && b.len() > 0 {
        if a[0] == b[0] {
            if a.drop_first() == b.drop_first() {
                assert(a =~= seq![a[0]] + a.drop_first());
                assert(b =~= seq![b[0]] + b.drop_first());
            }
            lemma_id_less_total(a.drop_first(), b.drop_first());
        } else {
            assert(a[0] as int != b[0] as int);
        }
    } else if a.len() == 0 && b.len() == 0 {
        assert(a =~= b);
    }
}

/// Whether `a` comes before `b` in lexicographic order.
pub fn id_precedes(a: &str, b: &str) -> (r: bool)
    ensures
        r == id_less(a@, b@),
{
    let na = a.unicode_len();
    let nb = b.unicode_len();
    let mut i: usize = 0;
    assert(a@.skip(0) =~= a@);
    assert(b@.skip(0) =~= b@);
    while i < na && i < nb
        invariant
            na == a@.len(),
            nb == b@.len(),
            i <= na,
            i <= nb,
            id_less(a@, b@) == id_less(a@.skip(i as int), b@.skip(i as int)),
        decreases na - i,
    {
        let ca = a.get_char(i);
        let cb = b.get_char(i);
        if ca != cb {
            return (ca as u32) < (cb as u32);
        }
        assert(a@.skip(i as int).drop_first() =~= a@.skip(i + 1));
        assert(b@.skip(i as int).drop_first() =~= b@.skip(i + 1));
        i = i + 1;
    }
    i < nb
}

/// The identifiers ascend strictly.
pub open spec fn ids_ascending(bonds: Seq<Bond>) -> bool {
    forall|i: int, j: int| 0 <= i < j < bonds.len() ==> id_less(#[trigger] bonds[i].id@, #[trigger] bonds[j].id@)
}

pub open spec fn has_id(bonds: Seq<Bond>, k: Seq<char>) -> bool {
    exists|i: int| 0 <= i < bonds.len() && (#[trigger] bonds[i]).id@ == k
}

/// A position of an instrument with identifier `k`, where there is one.
pub open spec fn index_of(bonds: Seq<Bond>, k: Seq<char>) -> int {
    choose|i: int| 0 <= i < bonds.len() && (#[trigger] bonds[i]).id@ == k
}

/// The instruments by identifier.
pub open spec fn by_id(bonds: Seq<Bond>) -> Map<Seq<char>, Bond> {
    Map::new(
        |k: Seq<char>| has_id(bonds, k),
        |k: Seq<char>| bonds[index_of(bonds, k)],
    )
}

/// The instruments by identifier, a later one replacing an earlier one with its identifier.
pub open spec fn latest_by_id(bonds: Seq<Bond>) -> Map<Seq<char>, Bond>
    decreases bonds.len(),
{
    if bonds.len() == 0 {
        Map::empty()
    } else {
        latest_by_id(bonds.drop_last()).insert(bonds.last().id@, bonds.last())
    }
}

proof fn lemma_by_id_at(bonds: Seq<Bond>, i: int)
    requires
        ids_ascending(bonds),
        0 <= i < bonds.len(),
    ensures
        by_id(bonds).contains_key(bonds[i].id@),
        by_id(bonds)[bonds[i].id@] == bonds[i],
{
    let k = bonds[i].id@;
    assert(has_id(bonds, k));
    let j = index_of(bonds, k);
    assert(by_id(bonds)[k] == bonds[j]);
    if j < i {
        assert(id_less(bonds[j].id@, bonds[i].id@));
        lemma_id_less_irreflexive(k);
    } else if i < j {
        assert(id_less(bonds[i].id@, bonds[j].id@));
        lemma_id_less_irreflexive(k);
    }
}

/// Puts `b` in its place by identifier, replacing the instrument with its identifier.
fn insert_by_id(bonds: &mut Vec<Bond>, b: Bond)
    requires
        ids_ascending(old(bonds)@),
    ensures
        ids_ascending(final(bonds)@),
        by_id(final(bonds)@) == by_id(old(bonds)@).insert(b.id@, b),
        forall|i: int| 0 <= i < final(bonds).len() ==> #[trigger] final(bonds)@[i] == b || old(bonds)@.contains(final(bonds)@[i]),
{
    let ghost old_bonds = bonds@;
    let ghost k = b.id@;
    let mut p: usize = 0;
    while p < bonds.len() && id_precedes(bonds[p].id.as_str(), b.id.as_str())
        invariant
            p <= bonds.len(),
            bonds@ == old_bonds,
            ids_ascending(old_bonds),
            k == b.id@,
            forall|t: int| 0 <= t < p ==> id_less((#[trigger] old_bonds[t]).id@, k),
        decreases bonds.len() - p,
    {
        p = p + 1;
    }
    // every identifier from position p on is not before k
    assert forall|t: int| p <= t < old_bonds.len() implies !id_less((#[trigger] old_bonds[t]).id@, k) by {
        if t > p {
            if id_less(old_bonds[t].id@, k) {
                lemma_id_less_transitive(old_bonds[p as int].id@, old_bonds[t].id@, k);
            }
        }
    }
    if p < bonds.len() && bonds[p].id.same_as(&b.id) {
        bonds.set(p, b);
        proof {
            let nb = bonds@;
            assert(nb == old_bonds.update(p as int, b));
            assert forall|i: int, j: int| 0 <= i < j < nb.len() implies id_less(#[trigger] nb[i].id@, #[trigger] nb[j].id@) by {
                assert(old_bonds[i].id@ == nb[i].id@);
                assert(old_bonds[j].id@ == nb[j].id@);
            }
            assert forall|key: Seq<char>| #[trigger] has_id(nb, key) == (has_id(old_bonds, key) || key == k) by {
                if has_id(old_bonds, key) {
                    let i = choose|i: int| 0 <= i < old_bonds.len() && (#[trigger] old_bonds[i]).id@ == key;
                    assert(nb[i].id@ == key);
                }
                if has_id(nb, key) {
                    let i = choose|i: int| 0 <= i < nb.len() && (#[trigger] nb[i]).id@ == key;
                    assert(old_bonds[i].id@ == key);
                }
                if key == k {
                    assert(nb[p as int].id@ == key);
                }
            }
            assert forall|key: Seq<char>| #[trigger] by_id(nb).contains_key(key) implies by_id(nb)[key]
                == by_id(old_bonds).insert(k, b)[key] by {
                let i = choose|i: int| 0 <= i < nb.len() && (#[trigger] nb[i]).id@ == key;
                lemma_by_id_at(nb, i);
                if i != p {
                    lemma_by_id_at(old_bonds, i);
                }
            }
            assert(by_id(nb) =~= by_id(old_bonds).insert(k, b));
            assert forall|i: int| 0 <= i < nb.len() implies #[trigger] nb[i] == b || old_bonds.contains(nb[i]) by {
                if i != p {
                    assert(nb[i] == old_bonds[i]);
                }
            }
        }
    } else {
        proof {
            if p < old_bonds.len() {
                assert(old_bonds[p as int].id@ != k);
                lemma_id_less_total(old_bonds[p as int].id@, k);
            }
        }
        bonds.insert(p, b);
        proof {
            let nb = bonds@;
            assert(nb == old_bonds.insert(p as int, b));
            assert forall|t: int| p < t < nb.len() implies id_less(k, (#[trigger] nb[t]).id@) by {
                assert(nb[t] == old_bonds[t - 1]);
                if t - 1 > p {
                    lemma_id_less_transitive(k, old_bonds[p as int].id@, old_bonds[t - 1].id@);
                }
            }
            assert forall|i: int, j: int| 0 <= i < j < nb.len() implies id_less(#[trigger] nb[i].id@, #[trigger] nb[j].id@) by {
                if j < p {
                } else if j == p {
                } else if i < p {
                    assert(id_less(nb[i].id@, k));
                    lemma_id_less_transitive(nb[i].id@, k, nb[j].id@);
                } else if i == p {
                } else {
                    assert(nb[i] == old_bonds[i - 1]);
                    assert(nb[j] == old_bonds[j - 1]);
                }
            }
            assert forall|key: Seq<char>| #[trigger] has_id(nb, key) == (has_id(old_bonds, key) || key == k) by {
                if has_id(old_bonds, key) {
                    let i = choose|i: int| 0 <= i < old_bonds.len() && (#[trigger] old_bonds[i]).id@ == key;
                    if i < p {
                        assert(nb[i].id@ == key);
                    } else {
                        assert(nb[i + 1].id@ == key);
                    }
                }
                if has_id(nb, key) {
                    let i = choose|i: int| 0 <= i < nb.len() && (#[trigger] nb[i]).id@ == key;
                    if i < p {
                        assert(old_bonds[i].id@ == key);
                    } else if i > p {
                        assert(old_bonds[i - 1].id@ == key);
                    }
                }
                if key == k {
                    assert(nb[p as int].id@ == key);
                }
            }
            assert forall|key: Seq<char>| #[trigger] by_id(nb).contains_key(key) implies by_id(nb)[key]
                == by_id(old_bonds).insert(k, b)[key] by {
                let i = choose|i: int| 0 <= i < nb.len() && (#[trigger] nb[i]).id@ == key;
                lemma_by_id_at(nb, i);
                lemma_id_less_irreflexive(k);
                if i < p {
                    assert(nb[i] == old_bonds[i]);
                    assert(id_less(nb[i].id@, k));
                    lemma_by_id_at(old_bonds, i);
                } else if i > p {
                    assert(nb[i] == old_bonds[i - 1]);
                    assert(id_less(k, nb[i].id@));
                    lemma_by_id_at(old_bonds, i - 1);
                }
            }
            assert(by_id(nb) =~= by_id(old_bonds).insert(k, b));
            assert forall|i: int| 0 <= i < nb.len() implies #[trigger] nb[i] == b || old_bonds.contains(nb[i]) by {
                if i < p {
                    assert(nb[i] == old_bonds[i]);
                } else if i > p {
                    assert(nb[i] == old_bonds[i - 1]);
                }
            }
        }
    }
}

/// `m` with the instruments of `bonds` put in, in order, each replacing the entry of its
/// identifier.
pub open spec fn overlay(m: Map<Seq<char>, Bond>, bonds: Seq<Bond>) -> Map<Seq<char>, Bond>
    decreases bonds.len(),
{
    if bonds.len() == 0 {
        m
    } else {
        overlay(m, bonds.drop_last()).insert(bonds.last().id@, bonds.last())
    }
}

proof fn lemma_overlay_concat(m: Map<Seq<char>, Bond>, first: Seq<Bond>, second: Seq<Bond>)
    ensures
        overlay(m, first + second) == overlay(overlay(m, first), second),
    decreases second.len(),
{
    if second.len() == 0 {
        assert(first + second =~= first);
    } else {
        assert((first + second).drop_last() =~= first + second.drop_last());
        lemma_overlay_concat(m, first, second.drop_last());
    }
}

proof fn lemma_overlay_empty(bonds: Seq<Bond>)
    ensures
        overlay(Map::empty(), bonds) == latest_by_id(bonds),
    decreases bonds.len(),
{
    if bonds.len() > 0 {
        lemma_overlay_empty(bonds.drop_last());
    }
}

proof fn lemma_still_wf(before: Seq<Bond>, after: Seq<Bond>, b: Bond)
    requires
        all_wf(before),
        b.wf(),
        forall|i: int| 0 <= i < after.len() ==> #[trigger] after[i] == b || before.contains(after[i]),
    ensures
        all_wf(after),
{
    assert forall|i: int| 0 <= i < after.len() implies (#[trigger] after[i]).wf() by {
        if after[i] != b {
            assert(before.contains(after[i]));
        }
    }
}

proof fn lemma_overlay_step(m: Map<Seq<char>, Bond>, all: Seq<Bond>, taken: int)
    requires
        0 <= taken < all.len(),
    ensures
        overlay(m, all.subrange(0, taken + 1)) == overlay(m, all.subrange(0, taken)).insert(all[taken].id@, all[taken]),
{
    assert(all.subrange(0, taken + 1).drop_last() =~= all.subrange(0, taken));
}

/// Puts each of `source`, in order, in place by identifier.
fn insert_all(bonds: &mut Vec<Bond>, source: Vec<Bond>)
    requires
        ids_ascending(old(bonds)@),
        all_wf(old(bonds)@),
        all_wf(source@),
    ensures
        ids_ascending(final(bonds)@),
        all_wf(final(bonds)@),
        by_id(final(bonds)@) == overlay(by_id(old(bonds)@), source@),
{
    let ghost start = by_id(bonds@);
    let ghost all = source@;
    let mut source = source;
    let mut taken: usize = 0;
    let total = source.len();
    assert(all.len() == total);
    assert(all.subrange(0, 0) =~= Seq::<Bond>::empty());
    assert(source@ =~= all.subrange(0, 0 as int) + source@);
    while source.len() > 0
        invariant
            taken + source.len() == all.len(),
            all.len() <= usize::MAX,
            source@ == all.subrange(taken as int, all.len() as int),
            ids_ascending(bonds@),
            all_wf(bonds@),
            all_wf(all),
            by_id(bonds@) == overlay(start, all.subrange(0, taken as int)),
        decreases source.len(),
    {
        assert(taken < all.len());
        let b = source.remove(0);
        assert(b == all[taken as int]);
        assert(b.wf());
        let ghost before = bonds@;
        insert_by_id(bonds, b);
        proof {
            lemma_still_wf(before, bonds@, b);
            lemma_overlay_step(start, all, taken as int);
        }
        taken = taken + 1;
        assert(source@ =~= all.subrange(taken as int, all.len() as int));
    }
    assert(all.subrange(0, all.len() as int) =~= all);
}

/// `all` holds the instruments that the rows of both sheets define.
pub open spec fn extracted_both(edo_rows: Seq<Vec<Cell>>, rod_rows: Seq<Vec<Cell>>, all: AllBonds) -> bool {
    &&& extracted(edo_rows, edo_label(), EDO_YEARS as int, all.edo@, edo_rows.len() as int)
    &&& extracted(rod_rows, rod_label(), ROD_YEARS as int, all.rod@, rod_rows.len() as int)
}

/// The series whose continuity is checked and fails first.
pub open spec fn broken_series(all: AllBonds) -> Seq<Bond> {
    if !continuous(all.edo@) {
        all.edo@
    } else {
        all.rod@
    }
}

/// Why the catalog could not be built.
#[derive(Debug)]
pub enum CatalogError {
    Extraction(ExtractError),
    Continuity(ContinuityError),
}

/// The instruments of both series by identifier; built once, then only read.
#[derive(Debug)]
pub struct BondsService {
    bonds: Vec<Bond>,
}

impl View for BondsService {
    type V = Map<Seq<char>, Bond>;

    closed spec fn view(&self) -> Map<Seq<char>, Bond> {
        by_id(self.bonds@)
    }
}

/// `ids` lists the identifiers of `m` in ascending order, each once.
pub open spec fn lists_keys(ids: Seq<BondId>, m: Map<Seq<char>, Bond>) -> bool {
    &&& forall|i: int, j: int| 0 <= i < j < ids.len() ==> id_less(#[trigger] ids[i]@, #[trigger] ids[j]@)
    &&& forall|i: int| 0 <= i < ids.len() ==> m.contains_key(#[trigger] ids[i]@)
    &&& forall|k: Seq<char>| #[trigger] m.contains_key(k) ==> exists|i: int| 0 <= i < ids.len() && ids[i]@ == k
}

impl BondsService {
    /// The identifiers ascend and every instrument is well formed.
    pub closed spec fn wf(&self) -> bool {
        ids_ascending(self.bonds@) && all_wf(self.bonds@)
    }

    /// The catalog of both series, each checked for continuity first (the ten-year series
    /// first). Where both series have an instrument with the same identifier, the twelve-year
    /// one is kept.
    pub fn new(all: AllBonds) -> (r: Result<BondsService, ContinuityError>)
        requires
            all_wf(all.edo@),
            all_wf(all.rod@),
        ensures
            r is Ok <==> continuous(all.edo@) && continuous(all.rod@),
            r matches Err(e) ==> if !continuous(all.edo@) {
                reports_gap(all.edo@, e)
            } else {
                reports_gap(all.rod@, e)
            },
            r matches Ok(c) ==> c.wf() && c@ == latest_by_id(all.edo@ + all.rod@),
    {
        match validate_continuity(&all.edo) {
            Ok(()) => {},
            Err(e) => {
                return Err(e);
            },
        }
        match validate_continuity(&all.rod) {
            Ok(()) => {},
            Err(e) => {
                return Err(e);
            },
        }
        let ghost edo = all.edo@;
        let ghost rod = all.rod@;
        let mut bonds: Vec<Bond> = Vec::new();
        assert(by_id(bonds@) =~= Map::<Seq<char>, Bond>::empty());
        insert_all(&mut bonds, all.edo);
        insert_all(&mut bonds, all.rod);
        proof {
            lemma_overlay_concat(Map::empty(), edo, rod);
            lemma_overlay_empty(edo + rod);
        }
        Ok(BondsService { bonds })
    }

    /// The catalog built from the rows of the sheets of both series: extraction first, then
    /// continuity. No catalog where either fails.
    pub fn from_rows(edo_rows: &Vec<Vec<Cell>>, rod_rows: &Vec<Vec<Cell>>) -> (r: Result<BondsService, CatalogError>)
        requires
            rows_wf(edo_rows@),
            rows_wf(rod_rows@),
        ensures
            (r matches Err(CatalogError::Extraction(_))) <==> extraction_fails(
                edo_rows@,
                edo_label(),
                EDO_YEARS as int,
            ) || extraction_fails(rod_rows@, rod_label(), ROD_YEARS as int),
            r matches Err(CatalogError::Extraction(e)) ==> if extraction_fails(
                edo_rows@,
                edo_label(),
                EDO_YEARS as int,
            ) {
                first_error(edo_rows@, edo_label(), EDO_YEARS as int, e)
            } else {
                first_error(rod_rows@, rod_label(), ROD_YEARS as int, e)
            },
            r matches Err(CatalogError::Continuity(e)) ==> exists|all: AllBonds|
                #[trigger] extracted_both(edo_rows@, rod_rows@, all) && !(continuous(all.edo@) && continuous(all.rod@))
                    && reports_gap(broken_series(all), e),
            r matches Ok(c) ==> c.wf() && exists|all: AllBonds|
                #[trigger] extracted_both(edo_rows@, rod_rows@, all) && continuous(all.edo@) && continuous(all.rod@)
                    && c@ == latest_by_id(all.edo@ + all.rod@),
    {
        let all = match read_bonds(edo_rows, rod_rows) {
            Ok(all) => all,
            Err(e) => {
                return Err(CatalogError::Extraction(e));
            },
        };
        let ghost kept = all;
        assert(extracted_both(edo_rows@, rod_rows@, kept));
        match BondsService::new(all) {
            Ok(c) => Ok(c),
            Err(e) => {
                assert(reports_gap(broken_series(kept), e));
                Err(CatalogError::Continuity(e))
            },
        }
    }

    /// The identifiers of all instruments, ascending.
    pub fn get_bonds(&self) -> (r: Vec<BondId>)
        requires
            self.wf(),
        ensures
            lists_keys(r@, self@),
    {
        let mut ids: Vec<BondId> = Vec::new();
        let mut i: usize = 0;
        while i < self.bonds.len()
            invariant
                i <= self.bonds.len(),
                self.wf(),
                ids.len() == i,
                forall|t: int| 0 <= t < i ==> (#[trigger] ids@[t])@ == self.bonds@[t].id@,
            decreases self.bonds.len() - i,
        {
            ids.push(self.bonds[i].id.duplicate());
            i = i + 1;
        }
        proof {
            assert forall|t: int, u: int| 0 <= t < u < ids.len() implies id_less(#[trigger] ids@[t]@, #[trigger] ids@[u]@) by {
                assert(id_less(self.bonds@[t].id@, self.bonds@[u].id@));
            }
            assert forall|t: int| 0 <= t < ids.len() implies self@.contains_key(#[trigger] ids@[t]@) by {
                lemma_by_id_at(self.bonds@, t);
            }
            assert forall|k: Seq<char>| #[trigger] self@.contains_key(k) implies exists|t: int| 0 <= t < ids.len() && ids@[t]@ == k by {
                let t = index_of(self.bonds@, k);
                assert(ids@[t]@ == k);
            }
        }
        ids
    }

    /// The instrument with the identifier, if there is one.
    pub fn get_bond(&self, id: &BondId) -> (r: Option<&Bond>)
        requires
            self.wf(),
        ensures
            r matches Some(b) ==> self@.contains_key(id@) && *b == self@[id@] && b.id@ == id@ && b.wf(),
            r is None ==> !self@.contains_key(id@),
    {
        let mut i: usize = 0;
        while i < self.bonds.len()
            invariant
                i <= self.bonds.len(),
                self.wf(),
                forall|t: int| 0 <= t < i ==> (#[trigger] self.bonds@[t]).id@ != id@,
            decreases self.bonds.len() - i,
        {
            if self.bonds[i].id.same_as(id) {
                proof {
                    lemma_by_id_at(self.bonds@, i as int);
                }
                return Some(&self.bonds[i]);
            }
            i = i + 1;
        }
        None
    }
}

} // verus!
