use vstd::prelude::*;
use ic_stable_structures::memory_manager::VirtualMemory;
use ic_stable_structures::{DefaultMemoryImpl, StableBTreeMap, StableCell};
use crate::model::{EmployeeRow, ExpenseRow, InventoryRow, ProjectRow, WorkshopRow};

verus! {

/// The durable state: one counter cell and five ordered maps keyed by id,
/// each in a memory region of its own.
///
/// The library creates no memory handle. The program that owns the memory
/// lays it out once, opens the cell and the maps in their regions, and moves
/// them into a `Vault`, which it hands to `Store::open`. A region must serve
/// one vault only: the contracts below hold of a vault whose regions nothing
/// else writes.
#[verifier::external_body]
pub struct Vault {
    pub counter: StableCell<u64, VirtualMemory<DefaultMemoryImpl>>,
    pub workshops: StableBTreeMap<u64, WorkshopRow, VirtualMemory<DefaultMemoryImpl>>,
    pub projects: StableBTreeMap<u64, ProjectRow, VirtualMemory<DefaultMemoryImpl>>,
    pub employees: StableBTreeMap<u64, EmployeeRow, VirtualMemory<DefaultMemoryImpl>>,
    pub expenses: StableBTreeMap<u64, ExpenseRow, VirtualMemory<DefaultMemoryImpl>>,
    pub inventories: StableBTreeMap<u64, InventoryRow, VirtualMemory<DefaultMemoryImpl>>,
}

/// The value held in the counter cell.
pub uninterp spec fn id_counter(v: Vault) -> u64;

/// What each ordered map holds.
pub uninterp spec fn workshop_rows(v: Vault) -> Map<u64, WorkshopRow>;

pub uninterp spec fn project_rows(v: Vault) -> Map<u64, ProjectRow>;

pub uninterp spec fn employee_rows(v: Vault) -> Map<u64, EmployeeRow>;

pub uninterp spec fn expense_rows(v: Vault) -> Map<u64, ExpenseRow>;

pub uninterp spec fn inventory_rows(v: Vault) -> Map<u64, InventoryRow>;

/// `s` lists the entries of `m` once each, by ascending key.
pub open spec fn is_listing<V>(s: Seq<(u64, V)>, m: Map<u64, V>) -> bool {
    &&& forall|i: int, j: int| 0 <= i < j < s.len() ==> s[i].0 < s[j].0
    &&& forall|i: int| 0 <= i < s.len() ==> #[trigger] m.contains_key(s[i].0) && m[s[i].0] == s[i].1
    &&& forall|k: u64| #[trigger] m.contains_key(k) ==> exists|i: int| 0 <= i < s.len() && s[i].0 == k
}

/// The entries of `m` by ascending key.
pub open spec fn entries<V>(m: Map<u64, V>) -> Seq<(u64, V)> {
    choose|s: Seq<(u64, V)>| is_listing(s, m)
}

/// A sum over a sequence, one term per item.
pub open spec fn sum_of<V>(s: Seq<V>, f: spec_fn(V) -> nat) -> nat
    decreases s.len(),
{
    if s.len() == 0 {
        0
    } else {
        sum_of(s.drop_last(), f) + f(s.last())
    }
}

/// The two vaults hold the same maps, the counter aside.
pub open spec fn same_tables(a: Vault, b: Vault) -> bool {
    &&& workshop_rows(a) == workshop_rows(b)
    &&& project_rows(a) == project_rows(b)
    &&& employee_rows(a) == employee_rows(b)
    &&& expense_rows(a) == expense_rows(b)
    &&& inventory_rows(a) == inventory_rows(b)
}

pub open spec fn same_vault(a: Vault, b: Vault) -> bool {
    same_tables(a, b) && id_counter(a) == id_counter(b)
}

impl Vault {
    /// Relies on `StableCell::get`: the value held.
    #[verifier::external_body]
    pub(crate) fn counter(&self) -> (r: u64)
        ensures
            r == id_counter(*self),
    {
        *self.counter.get()
    }

    /// Relies on `StableCell::set`: the cell then holds `value`. The write
    /// cannot fail: a `u64` always encodes in 8 bytes, for which `StableCell::new`
    /// and `StableCell::init` have already made room, so the region never grows.
    #[verifier::external_body]
    pub(crate) fn set_counter(&mut self, value: u64)
        ensures
            same_tables(*final(self), *old(self)),
            id_counter(*final(self)) == value,
    {
        let _ = self.counter.set(value);
    }

    /// Relies on `StableBTreeMap::insert` over the workshops.
    #[verifier::external_body]
    pub(crate) fn insert_workshop(&mut self, id: u64, row: WorkshopRow)
        ensures
            workshop_rows(*final(self)) == workshop_rows(*old(self)).insert(id, row),
            project_rows(*final(self)) == project_rows(*old(self)),
            employee_rows(*final(self)) == employee_rows(*old(self)),
            expense_rows(*final(self)) == expense_rows(*old(self)),
            inventory_rows(*final(self)) == inventory_rows(*old(self)),
            id_counter(*final(self)) == id_counter(*old(self)),
    {
        self.workshops.insert(id, row);
    }

    /// Relies on `StableBTreeMap::get` over the workshops.
    #[verifier::external_body]
    pub(crate) fn get_workshop(&self, id: u64) -> (r: Option<WorkshopRow>)
        ensures
            r == (if workshop_rows(*self).contains_key(id) {
                Some(workshop_rows(*self)[id])
            } else {
                None
            }),
    {
        self.workshops.get(&id)
    }

    /// Relies on `StableBTreeMap::contains_key` over the workshops.
    #[verifier::external_body]
    pub(crate) fn has_workshop(&self, id: u64) -> (r: bool)
        ensures
            r == workshop_rows(*self).contains_key(id),
    {
        self.workshops.contains_key(&id)
    }

    /// Relies on `StableBTreeMap::remove` over the workshops: the entry is
    /// gone and its value, if there was one, is handed back.
    #[verifier::external_body]
    pub(crate) fn remove_workshop(&mut self, id: u64) -> (r: Option<WorkshopRow>)
        ensures
            r == (if workshop_rows(*old(self)).contains_key(id) {
                Some(workshop_rows(*old(self))[id])
            } else {
                None
            }),
            workshop_rows(*final(self)) == workshop_rows(*old(self)).remove(id),
            project_rows(*final(self)) == project_rows(*old(self)),
            employee_rows(*final(self)) == employee_rows(*old(self)),
            expense_rows(*final(self)) == expense_rows(*old(self)),
            inventory_rows(*final(self)) == inventory_rows(*old(self)),
            id_counter(*final(self)) == id_counter(*old(self)),
    {
        self.workshops.remove(&id)
    }

    /// Relies on `StableBTreeMap::len` over the workshops: the number of entries.
    #[verifier::external_body]
    pub(crate) fn workshop_count(&self) -> (r: u64)
        ensures
            r as nat == workshop_rows(*self).len(),
    {
        self.workshops.len()
    }

    /// Relies on `StableBTreeMap::iter` over the workshops: every entry, by ascending key.
    #[verifier::external_body]
    pub(crate) fn workshop_list(&self) -> (r: Vec<(u64, WorkshopRow)>)
        ensures
            is_listing(r@, workshop_rows(*self)),
    {
        self.workshops.iter().collect()
    }

    /// Relies on `StableBTreeMap::insert` over the projects.
    #[verifier::external_body]
    pub(crate) fn insert_project(&mut self, id: u64, row: ProjectRow)
        ensures
            project_rows(*final(self)) == project_rows(*old(self)).insert(id, row),
            workshop_rows(*final(self)) == workshop_rows(*old(self)),
            employee_rows(*final(self)) == employee_rows(*old(self)),
            expense_rows(*final(self)) == expense_rows(*old(self)),
            inventory_rows(*final(self)) == inventory_rows(*old(self)),
            id_counter(*final(self)) == id_counter(*old(self)),
    {
        self.projects.insert(id, row);
    }

    /// Relies on `StableBTreeMap::insert` over the employees.
    #[verifier::external_body]
    pub(crate) fn insert_employee(&mut self, id: u64, row: EmployeeRow)
        ensures
            employee_rows(*final(self)) == employee_rows(*old(self)).insert(id, row),
            workshop_rows(*final(self)) == workshop_rows(*old(self)),
            project_rows(*final(self)) == project_rows(*old(self)),
            expense_rows(*final(self)) == expense_rows(*old(self)),
            inventory_rows(*final(self)) == inventory_rows(*old(self)),
            id_counter(*final(self)) == id_counter(*old(self)),
    {
        self.employees.insert(id, row);
    }

    /// Relies on `StableBTreeMap::insert` over the expenses.
    #[verifier::external_body]
    pub(crate) fn insert_expense(&mut self, id: u64, row: ExpenseRow)
        ensures
            expense_rows(*final(self)) == expense_rows(*old(self)).insert(id, row),
            workshop_rows(*final(self)) == workshop_rows(*old(self)),
            project_rows(*final(self)) == project_rows(*old(self)),
            employee_rows(*final(self)) == employee_rows(*old(self)),
            inventory_rows(*final(self)) == inventory_rows(*old(self)),
            id_counter(*final(self)) == id_counter(*old(self)),
    {
        self.expenses.insert(id, row);
    }

    /// Relies on `StableBTreeMap::iter` over the expenses: every entry, by ascending key.
    #[verifier::external_body]
    pub(crate) fn expense_list(&self) -> (r: Vec<(u64, ExpenseRow)>)
        ensures
            is_listing(r@, expense_rows(*self)),
    {
        self.expenses.iter().collect()
    }

    /// Relies on `StableBTreeMap::insert` over the stock entries.
    #[verifier::external_body]
    pub(crate) fn insert_inventory(&mut self, id: u64, row: InventoryRow)
        ensures
            inventory_rows(*final(self)) == inventory_rows(*old(self)).insert(id, row),
            workshop_rows(*final(self)) == workshop_rows(*old(self)),
            project_rows(*final(self)) == project_rows(*old(self)),
            employee_rows(*final(self)) == employee_rows(*old(self)),
            expense_rows(*final(self)) == expense_rows(*old(self)),
            id_counter(*final(self)) == id_counter(*old(self)),
    {
        self.inventories.insert(id, row);
    }

    /// Relies on `StableBTreeMap::iter` over the stock entries: every entry, by ascending key.
    #[verifier::external_body]
    pub(crate) fn inventory_list(&self) -> (r: Vec<(u64, InventoryRow)>)
        ensures
            is_listing(r@, inventory_rows(*self)),
    {
        self.inventories.iter().collect()
    }
    /// Relies on `StableBTreeMap::contains_key` over the projects.
    #[verifier::external_body]
    pub(crate) fn has_project(&self, id: u64) -> (r: bool)
        ensures
            r == project_rows(*self).contains_key(id),
    {
        self.projects.contains_key(&id)
    }

    /// Relies on `StableBTreeMap::iter` over the projects: every entry, by ascending key.
    #[verifier::external_body]
    pub(crate) fn project_list(&self) -> (r: Vec<(u64, ProjectRow)>)
        ensures
            is_listing(r@, project_rows(*self)),
    {
        self.projects.iter().collect()
    }

    /// Relies on `StableBTreeMap::contains_key` over the employees.
    #[verifier::external_body]
    pub(crate) fn has_employee(&self, id: u64) -> (r: bool)
        ensures
            r == employee_rows(*self).contains_key(id),
    {
        self.employees.contains_key(&id)
    }

    /// Relies on `StableBTreeMap::iter` over the employees: every entry, by ascending key.
    #[verifier::external_body]
    pub(crate) fn employee_list(&self) -> (r: Vec<(u64, EmployeeRow)>)
        ensures
            is_listing(r@, employee_rows(*self)),
    {
        self.employees.iter().collect()
    }

    /// Relies on `StableBTreeMap::contains_key` over the expenses.
    #[verifier::external_body]
    pub(crate) fn has_expense(&self, id: u64) -> (r: bool)
        ensures
            r == expense_rows(*self).contains_key(id),
    {
        self.expenses.contains_key(&id)
    }

    /// Relies on `StableBTreeMap::contains_key` over the stock entries.
    #[verifier::external_body]
    pub(crate) fn has_inventory(&self, id: u64) -> (r: bool)
        ensures
            r == inventory_rows(*self).contains_key(id),
    {
        self.inventories.contains_key(&id)
    }
}

/// Where every term is zero, so is the sum.
pub proof fn lemma_sum_zero<V>(s: Seq<V>, f: spec_fn(V) -> nat)
    requires
        forall|i: int| 0 <= i < s.len() ==> f(#[trigger] s[i]) == 0,
    ensures
        sum_of(s, f) == 0,
    decreases s.len(),
{
    if s.len() > 0 {
        assert forall|i: int| 0 <= i < s.drop_last().len() implies f(#[trigger] s.drop_last()[i])
            == 0 by {
            assert(s.drop_last()[i] == s[i]);
        }
        lemma_sum_zero(s.drop_last(), f);
        assert(f(s[s.len() - 1]) == 0);
    }
}

/// A listing that exists is the one that `entries` picks.
pub proof fn lemma_entries_is<V>(s: Seq<(u64, V)>, m: Map<u64, V>)
    requires
        is_listing(s, m),
    ensures
        entries(m) == s,
{
    let e = entries(m);
    assert(is_listing(e, m));
    lemma_listing_unique(e, s, m);
}

/// Two listings of one map are the same sequence.
pub proof fn lemma_listing_unique<V>(s1: Seq<(u64, V)>, s2: Seq<(u64, V)>, m: Map<u64, V>)
    requires
        is_listing(s1, m),
        is_listing(s2, m),
    ensures
        s1 == s2,
    decreases s1.len(),
{
    if s1.len() == 0 {
        if s2.len() > 0 {
            assert(m.contains_key(s2[0].0));
        }
        assert(s1 =~= s2);
    } else {
        assert(m.contains_key(s1[0].0));
        assert(s2.len() > 0);
        assert(m.contains_key(s2[0].0));
        let k1 = s1[0].0;
        let k2 = s2[0].0;
        let j2 = choose|i: int| 0 <= i < s2.len() && s2[i].0 == k1;
        let j1 = choose|i: int| 0 <= i < s1.len() && s1[i].0 == k2;
        assert(k2 <= k1) by {
            if j2 > 0 {
                assert(s2[0].0 < s2[j2].0);
            }
        }
        assert(k1 <= k2) by {
            if j1 > 0 {
                assert(s1[0].0 < s1[j1].0);
            }
        }
        let t1 = s1.drop_first();
        let t2 = s2.drop_first();
        let m2 = m.remove(k1);
        assert forall|i: int| 0 <= i < t1.len() implies #[trigger] m2.contains_key(t1[i].0)
            && m2[t1[i].0] == t1[i].1 by {
            assert(s1[0].0 < s1[i + 1].0);
            assert(m.contains_key(s1[i + 1].0));
        }
        assert forall|i: int| 0 <= i < t2.len() implies #[trigger] m2.contains_key(t2[i].0)
            && m2[t2[i].0] == t2[i].1 by {
            assert(s2[0].0 < s2[i + 1].0);
            assert(m.contains_key(s2[i + 1].0));
        }
        assert forall|k: u64| #[trigger] m2.contains_key(k) implies exists|i: int|
            0 <= i < t1.len() && t1[i].0 == k by {
            assert(m.contains_key(k));
            let j = choose|i: int| 0 <= i < s1.len() && s1[i].0 == k;
            assert(j != 0);
            assert(t1[j - 1].0 == k);
        }
        assert forall|k: u64| #[trigger] m2.contains_key(k) implies exists|i: int|
            0 <= i < t2.len() && t2[i].0 == k by {
            assert(m.contains_key(k));
            let j = choose|i: int| 0 <= i < s2.len() && s2[i].0 == k;
            assert(j != 0);
            assert(t2[j - 1].0 == k);
        }
        assert forall|i: int, j: int| 0 <= i < j < t1.len() implies t1[i].0 < t1[j].0 by {
            assert(s1[i + 1].0 < s1[j + 1].0);
        }
        assert forall|i: int, j: int| 0 <= i < j < t2.len() implies t2[i].0 < t2[j].0 by {
            assert(s2[i + 1].0 < s2[j + 1].0);
        }
        lemma_listing_unique(t1, t2, m2);
        assert(s1[0] == s2[0]);
        assert(s1 =~= s2) by {
            assert forall|i: int| 0 <= i < s1.len() implies s1[i] == s2[i] by {
                if i > 0 {
                    assert(s1[i] == t1[i - 1]);
                    assert(s2[i] == t2[i - 1]);
                }
            }
        }
    }
}

} // verus!
