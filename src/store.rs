use vstd::prelude::*;
use crate::model::{
    employee_of, expense_of, inventory_of, project_of, workshop_of, AddEmployeePayload,
    CreateProjectPayload, CreateWorkshopPayload, Employee, Expense, Inventory, Message, Project,
    ProjectStatus, RecordExpensePayload, UpdateInventoryPayload, WideSum, Workshop, WorkshopRow, ExpenseRow,
    InventoryRow,
};
use crate::text::{blank, email_shaped, is_blank, is_email_valid};
use crate::vault::{
    employee_rows, entries, expense_rows, id_counter, inventory_rows, is_listing,
    lemma_entries_is, lemma_sum_zero, project_rows,
    same_tables, sum_of, workshop_rows, Vault,
};

verus! {

/// The entity store: five collections of records and the id allocator they share.
pub struct Store {
    vault: Vault,
}

/// The records that a vault holds, read from its rows; the key is the id.
pub open spec fn workshops_in(v: Vault) -> Map<u64, Workshop> {
    Map::new(|k: u64| workshop_rows(v).contains_key(k), |k: u64| workshop_of(k, workshop_rows(v)[k]))
}

pub open spec fn projects_in(v: Vault) -> Map<u64, Project> {
    Map::new(|k: u64| project_rows(v).contains_key(k), |k: u64| project_of(k, project_rows(v)[k]))
}

pub open spec fn employees_in(v: Vault) -> Map<u64, Employee> {
    Map::new(|k: u64| employee_rows(v).contains_key(k), |k: u64| employee_of(k, employee_rows(v)[k]))
}

pub open spec fn expenses_in(v: Vault) -> Map<u64, Expense> {
    Map::new(|k: u64| expense_rows(v).contains_key(k), |k: u64| expense_of(k, expense_rows(v)[k]))
}

pub open spec fn inventories_in(v: Vault) -> Map<u64, Inventory> {
    Map::new(
        |k: u64| inventory_rows(v).contains_key(k),
        |k: u64| inventory_of(k, inventory_rows(v)[k]),
    )
}

/// How many of the vault's five maps hold a row under `k`.
pub open spec fn holding_in(v: Vault, k: u64) -> nat {
    (if workshop_rows(v).contains_key(k) { 1nat } else { 0 })
        + (if project_rows(v).contains_key(k) { 1nat } else { 0 })
        + (if employee_rows(v).contains_key(k) { 1nat } else { 0 })
        + (if expense_rows(v).contains_key(k) { 1nat } else { 0 })
        + (if inventory_rows(v).contains_key(k) { 1nat } else { 0 })
}

/// `k` lies between 1 and the vault's counter and names one row at most.
pub open spec fn id_fits_in(v: Vault, k: u64) -> bool {
    1 <= k <= id_counter(v) && holding_in(v, k) <= 1
}

/// Every id in use in the vault fits.
pub open spec fn consistent(v: Vault) -> bool {
    forall|k: u64| #[trigger] holding_in(v, k) > 0 ==> id_fits_in(v, k)
}

/// How many of the five collections hold a record under `k`.
pub open spec fn tables_holding(s: Store, k: u64) -> nat {
    (if s.workshops().contains_key(k) { 1nat } else { 0 })
        + (if s.projects().contains_key(k) { 1nat } else { 0 })
        + (if s.employees().contains_key(k) { 1nat } else { 0 })
        + (if s.expenses().contains_key(k) { 1nat } else { 0 })
        + (if s.inventories().contains_key(k) { 1nat } else { 0 })
}

/// Refused with `InvalidPayload`.
pub open spec fn invalid_payload<T>(r: Result<T, Message>) -> bool {
    r matches Err(Message::InvalidPayload(_))
}

/// Refused with `NotFound`.
pub open spec fn not_found<T>(r: Result<T, Message>) -> bool {
    r matches Err(Message::NotFound(_))
}

/// Failed with `Error`: the ids are used up.
pub open spec fn store_error<T>(r: Result<T, Message>) -> bool {
    r matches Err(Message::Error(_))
}

/// Both stores hold the same records and the same last id.
pub open spec fn same_state(a: Store, b: Store) -> bool {
    a.last_id() == b.last_id() && same_records(a, b)
}

/// Both stores hold the same records.
pub open spec fn same_records(a: Store, b: Store) -> bool {
    &&& a.workshops() == b.workshops()
    &&& a.projects() == b.projects()
    &&& a.employees() == b.employees()
    &&& a.expenses() == b.expenses()
    &&& a.inventories() == b.inventories()
}

pub open spec fn workshop_payload_invalid(p: CreateWorkshopPayload) -> bool {
    blank(p.name@) || blank(p.contact@) || blank(p.email@) || !email_shaped(p.email@)
}

pub open spec fn project_payload_invalid(p: CreateProjectPayload) -> bool {
    p.name@.len() == 0 || p.description@.len() == 0 || p.cost_estimate == 0
}

pub open spec fn employee_payload_invalid(p: AddEmployeePayload) -> bool {
    p.name@.len() == 0 || p.role@.len() == 0 || p.hourly_rate == 0
}

pub open spec fn expense_payload_invalid(p: RecordExpensePayload) -> bool {
    p.amount == 0
}

pub open spec fn inventory_payload_invalid(p: UpdateInventoryPayload) -> bool {
    p.quantity == 0 || p.unit_price == 0
}

pub open spec fn new_workshop(id: u64, p: CreateWorkshopPayload, now: u64) -> Workshop {
    Workshop {
        id,
        name: p.name,
        location: p.location,
        owner: p.owner,
        contact: p.contact,
        email: p.email,
        created_at: now,
    }
}

pub open spec fn new_project(id: u64, p: CreateProjectPayload) -> Project {
    Project {
        id,
        workshop_id: p.workshop_id,
        name: p.name,
        description: p.description,
        deadline: p.deadline,
        cost_estimate: p.cost_estimate,
        status: ProjectStatus::Ongoing,
    }
}

pub open spec fn new_employee(id: u64, p: AddEmployeePayload) -> Employee {
    Employee {
        id,
        workshop_id: p.workshop_id,
        name: p.name,
        role: p.role,
        hourly_rate: p.hourly_rate,
        is_active: true,
    }
}

pub open spec fn new_expense(id: u64, p: RecordExpensePayload, now: u64) -> Expense {
    Expense {
        id,
        workshop_id: p.workshop_id,
        date: now,
        category: p.category,
        amount: p.amount,
        description: p.description,
    }
}

pub open spec fn new_inventory(id: u64, p: UpdateInventoryPayload, now: u64) -> Inventory {
    Inventory {
        id,
        workshop_id: p.workshop_id,
        item_name: p.item_name,
        quantity: p.quantity,
        unit_price: p.unit_price,
        restock_date: now,
    }
}

/// What `create_workshop` does: a payload that fails the checks is refused
/// with `InvalidPayload`; otherwise the next id is taken and the workshop is
/// stored under it; only when the ids are used up does it fail with `Error`.
/// A refusal changes nothing.
pub open spec fn create_workshop_post(
    before: Store,
    after: Store,
    p: CreateWorkshopPayload,
    now: u64,
    r: Result<Workshop, Message>,
) -> bool {
    &&& workshop_payload_invalid(p) <==> invalid_payload(r)
    &&& !workshop_payload_invalid(p) && before.last_id() == u64::MAX ==> store_error(r)
    &&& !workshop_payload_invalid(p) && before.last_id() < u64::MAX ==> r is Ok
    &&& r is Ok || invalid_payload(r) || store_error(r)
    &&& r is Err ==> same_state(before, after)
    &&& r matches Ok(w) ==> {
        &&& before.last_id() < u64::MAX
        &&& w.id == before.last_id() + 1
        &&& w == new_workshop(w.id, p, now)
        &&& after.last_id() == w.id
        &&& after.workshops() == before.workshops().insert(w.id, w)
        &&& after.projects() == before.projects()
        &&& after.employees() == before.employees()
        &&& after.expenses() == before.expenses()
        &&& after.inventories() == before.inventories()
    }
}

/// What `delete_workshop` does: an absent id is `NotFound` and changes
/// nothing; otherwise that workshop alone is removed, its children stay.
pub open spec fn delete_workshop_post(
    before: Store,
    after: Store,
    id: u64,
    r: Result<Message, Message>,
) -> bool {
    &&& before.workshops().contains_key(id) <==> (r matches Ok(Message::Success(_)))
    &&& !before.workshops().contains_key(id) <==> not_found(r)
    &&& r is Err ==> same_state(before, after)
    &&& r is Ok ==> {
        &&& after.last_id() == before.last_id()
        &&& after.workshops() == before.workshops().remove(id)
        &&& after.projects() == before.projects()
        &&& after.employees() == before.employees()
        &&& after.expenses() == before.expenses()
        &&& after.inventories() == before.inventories()
    }
}

/// `w` with the name and the location replaced by the given values that are not blank.
pub open spec fn updated_workshop(w: Workshop, name: Option<String>, location: Option<String>) -> Workshop {
    Workshop {
        name: match name {
            Some(n) => if blank(n@) { w.name } else { n },
            None => w.name,
        },
        location: match location {
            Some(l) => if blank(l@) { w.location } else { l },
            None => w.location,
        },
        ..w
    }
}

/// Each workshop paired with its id.
pub open spec fn keyed(v: Seq<Workshop>) -> Seq<(u64, Workshop)> {
    v.map_values(|w: Workshop| (w.id, w))
}

/// `v` holds the workshops of `m` once each, by ascending id.
pub open spec fn lists_workshops(v: Seq<Workshop>, m: Map<u64, Workshop>) -> bool {
    is_listing(keyed(v), m)
}

/// The amount that an expense adds to the total of workshop `w`.
pub open spec fn expense_share(w: u64) -> spec_fn((u64, Expense)) -> nat {
    |e: (u64, Expense)| if e.1.workshop_id == w { e.1.amount as nat } else { 0 }
}

/// The value that a stock entry adds to the total of workshop `w`.
pub open spec fn stock_share(w: u64) -> spec_fn((u64, Inventory)) -> nat {
    |e: (u64, Inventory)| if e.1.workshop_id == w { (e.1.quantity * e.1.unit_price) as nat } else { 0 }
}

/// The sum of `amount` over the expenses of workshop `w`.
pub open spec fn expense_total(m: Map<u64, Expense>, w: u64) -> nat {
    sum_of(entries(m), expense_share(w))
}

/// The sum of `quantity * unit_price` over the stock entries of workshop `w`.
pub open spec fn stock_total(m: Map<u64, Inventory>, w: u64) -> nat {
    sum_of(entries(m), stock_share(w))
}

/// One more term of at most `m` keeps a sum of `i` such terms under `(i + 1) * m`.
proof fn lemma_sum_step(total: nat, i: nat, add: nat, m: nat)
    requires
        total <= i * m,
        add <= m,
    ensures
        total + add <= (i + 1) * m,
{
    assert(total + add <= (i + 1) * m) by (nonlinear_arith)
        requires
            total <= i * m,
            add <= m,
    ;
}

/// `a + b`, carried into the high word; `bound` is a bound on the sum that
/// the caller knows to lie below `2^192`.
fn wide_add(a: WideSum, b: u128, bound: Ghost<nat>) -> (r: WideSum)
    requires
        a.value() + b <= bound@,
        bound@ < (u64::MAX as nat + 1) * (u128::MAX as nat + 1),
    ensures
        r.value() == a.value() + b,
{
    if a.low <= u128::MAX - b {
        WideSum { high: a.high, low: a.low + b }
    } else {
        let low = b - (u128::MAX - a.low) - 1;
        proof {
            let w = u128::MAX as nat + 1;
            let h = a.high as nat;
            assert((h + 1) * w + low as nat == a.value() + b) by (nonlinear_arith)
                requires
                    w == u128::MAX as nat + 1,
                    low as nat == b as nat + a.low as nat - w,
                    a.value() == h * w + a.low as nat,
            ;
            assert(h + 1 <= u64::MAX as nat) by (nonlinear_arith)
                requires
                    (h + 1) * w <= a.value() + b,
                    a.value() + b < (u64::MAX as nat + 1) * w,
                    w > 0,
            ;
        }
        WideSum { high: a.high + 1, low }
    }
}

/// One more stock term keeps the running value under `(i + 1)` maximal
/// products, which stays below `2^192` while `i` counts fewer than `2^64` items.
proof fn lemma_stock_step(quantity: u64, unit_price: u64, add: u128, i: nat, total: nat)
    requires
        add == 0 || add as nat == quantity as nat * unit_price as nat,
        total <= i * (u64::MAX as nat * u64::MAX as nat),
        i < u64::MAX,
    ensures
        total + add <= (i + 1) * (u64::MAX as nat * u64::MAX as nat),
        (i + 1) * (u64::MAX as nat * u64::MAX as nat) < (u64::MAX as nat + 1) * (u128::MAX as nat + 1),
{
    let m = u64::MAX as nat;
    assert(quantity as nat * unit_price as nat <= m * m) by (nonlinear_arith)
        requires
            quantity as nat <= m,
            unit_price as nat <= m,
    ;
    lemma_sum_step(total, i, add as nat, m * m);
    assert((i + 1) * (m * m) < (m + 1) * (u128::MAX as nat + 1)) by (nonlinear_arith)
        requires
            i + 1 <= m,
            m * m < u128::MAX as nat + 1,
    ;
}

/// A product of two `u64` values fits in a `u128`.
proof fn lemma_product_fits(a: u64, b: u64)
    ensures
        a as int * b as int <= u128::MAX,
{
    assert(a as int * b as int <= u64::MAX as int * u64::MAX as int) by (nonlinear_arith);
}

/// No id is held by two records, whatever their kinds, and every id in use
/// is one the allocator has handed out: between 1 and the last id.
pub proof fn lemma_ids_unique(s: Store, k: u64)
    requires
        s.wf(),
    ensures
        tables_holding(s, k) <= 1,
        tables_holding(s, k) > 0 ==> 1 <= k <= s.last_id(),
{
}

/// A listing of stored rows, each turned into its record, lists the records.
proof fn lemma_listing_converts<R, T>(
    s: Seq<(u64, R)>,
    rows: Map<u64, R>,
    conv: spec_fn(u64, R) -> T,
)
    requires
        is_listing(s, rows),
    ensures
        is_listing(
            s.map_values(|p: (u64, R)| (p.0, conv(p.0, p.1))),
            Map::new(|k: u64| rows.contains_key(k), |k: u64| conv(k, rows[k])),
        ),
{
    let t = s.map_values(|p: (u64, R)| (p.0, conv(p.0, p.1)));
    let m = Map::new(|k: u64| rows.contains_key(k), |k: u64| conv(k, rows[k]));
    assert forall|i: int| 0 <= i < t.len() implies #[trigger] m.contains_key(t[i].0) && m[t[i].0]
        == t[i].1 by {
        assert(rows.contains_key(s[i].0));
    }
    assert forall|k: u64| #[trigger] m.contains_key(k) implies exists|i: int|
        0 <= i < t.len() && t[i].0 == k by {
        assert(rows.contains_key(k));
        let i = choose|i: int| 0 <= i < s.len() && s[i].0 == k;
        assert(t[i].0 == k);
    }
    assert forall|i: int, j: int| 0 <= i < j < t.len() implies t[i].0 < t[j].0 by {
        assert(s[i].0 < s[j].0);
    }
}

/// Whether every id of `list` lies between 1 and the counter of `v` and
/// belongs to one record of `v` only.
fn ids_fit<R>(v: &Vault, list: &Vec<(u64, R)>) -> (r: bool)
    ensures
        r == forall|i: int| 0 <= i < list@.len() ==> id_fits_in(*v, #[trigger] list@[i].0),
{
    let last = v.counter();
    let mut i: usize = 0;
    while i < list.len()
        invariant
            i <= list@.len(),
            last == id_counter(*v),
            forall|j: int| 0 <= j < i ==> id_fits_in(*v, #[trigger] list@[j].0),
        decreases list@.len() - i,
    {
        let k = list[i].0;
        if k == 0 || k > last {
            assert(!id_fits_in(*v, list@[i as int].0));
            return false;
        }
        let held: u8 = (if v.has_workshop(k) { 1u8 } else { 0 }) + (if v.has_project(k) {
            1u8
        } else {
            0
        }) + (if v.has_employee(k) { 1u8 } else { 0 }) + (if v.has_expense(k) { 1u8 } else { 0 })
            + (if v.has_inventory(k) { 1u8 } else { 0 });
        if held > 1 {
            assert(held as nat == holding_in(*v, k));
            assert(!id_fits_in(*v, list@[i as int].0));
            return false;
        }
        i = i + 1;
    }
    true
}

/// Whether the records that `v` holds keep the store's id rule: every id
/// lies between 1 and the counter and names one record only.
pub fn records_consistent(v: &Vault) -> (r: bool)
    ensures
        r == consistent(*v),
{
    let workshops = v.workshop_list();
    let projects = v.project_list();
    let employees = v.employee_list();
    let expenses = v.expense_list();
    let inventories = v.inventory_list();
    let ok = ids_fit(v, &workshops) && ids_fit(v, &projects) && ids_fit(v, &employees) && ids_fit(
        v,
        &expenses,
    ) && ids_fit(v, &inventories);
    proof {
        if ok {
            assert forall|k: u64| #[trigger] holding_in(*v, k) > 0 implies id_fits_in(*v, k) by {
                if workshop_rows(*v).contains_key(k) {
                    let i = choose|i: int| 0 <= i < workshops@.len() && workshops@[i].0 == k;
                    assert(id_fits_in(*v, workshops@[i].0));
                } else if project_rows(*v).contains_key(k) {
                    let i = choose|i: int| 0 <= i < projects@.len() && projects@[i].0 == k;
                    assert(id_fits_in(*v, projects@[i].0));
                } else if employee_rows(*v).contains_key(k) {
                    let i = choose|i: int| 0 <= i < employees@.len() && employees@[i].0 == k;
                    assert(id_fits_in(*v, employees@[i].0));
                } else if expense_rows(*v).contains_key(k) {
                    let i = choose|i: int| 0 <= i < expenses@.len() && expenses@[i].0 == k;
                    assert(id_fits_in(*v, expenses@[i].0));
                } else {
                    assert(inventory_rows(*v).contains_key(k));
                    let i = choose|i: int| 0 <= i < inventories@.len() && inventories@[i].0 == k;
                    assert(id_fits_in(*v, inventories@[i].0));
                }
            }
        } else {
            let l = if !ids_fit_spec(*v, workshops@) {
                ids_witness(*v, workshops@)
            } else if !ids_fit_spec(*v, projects@) {
                ids_witness(*v, projects@)
            } else if !ids_fit_spec(*v, employees@) {
                ids_witness(*v, employees@)
            } else if !ids_fit_spec(*v, expenses@) {
                ids_witness(*v, expenses@)
            } else {
                ids_witness(*v, inventories@)
            };
            assert(holding_in(*v, l) > 0 && !id_fits_in(*v, l));
        }
    }
    ok
}

spec fn ids_fit_spec<R>(v: Vault, s: Seq<(u64, R)>) -> bool {
    forall|i: int| 0 <= i < s.len() ==> id_fits_in(v, #[trigger] s[i].0)
}

/// An id of `s` that breaks the rule, where one does.
spec fn ids_witness<R>(v: Vault, s: Seq<(u64, R)>) -> u64 {
    s[choose|i: int| 0 <= i < s.len() && !id_fits_in(v, s[i].0)].0
}

/// A store that was well formed stays so when one record is added under
/// the id just taken.
proof fn lemma_wf_after_add(before: Store, after: Store, id: u64)
    requires
        before.wf(),
        id == before.last_id() + 1,
        after.last_id() == id,
        tables_holding(after, id) <= 1,
        forall|k: u64| k != id ==> #[trigger] tables_holding(after, k) == tables_holding(before, k),
    ensures
        after.wf(),
{
    assert forall|k: u64| #[trigger] tables_holding(after, k) > 0 implies 1 <= k <= after.last_id() by {
        if k != id {
            assert(tables_holding(before, k) > 0);
        }
    }
    assert forall|k: u64| #[trigger] tables_holding(after, k) <= 1 by {
        if k != id {
            assert(tables_holding(before, k) <= 1);
        }
    }
}

/// Equal maps in storage give equal records.
proof fn lemma_same_tables(a: Store, b: Store)
    requires
        same_tables(a.vault, b.vault),
    ensures
        same_records(a, b),
        forall|k: u64| #[trigger] tables_holding(a, k) == tables_holding(b, k),
{
    lemma_rows_match(a, b);
}

/// Equal rows in storage give equal records, table by table.
proof fn lemma_rows_match(a: Store, b: Store)
    ensures
        workshop_rows(a.vault) == workshop_rows(b.vault) ==> a.workshops() == b.workshops(),
        project_rows(a.vault) == project_rows(b.vault) ==> a.projects() == b.projects(),
        employee_rows(a.vault) == employee_rows(b.vault) ==> a.employees() == b.employees(),
        expense_rows(a.vault) == expense_rows(b.vault) ==> a.expenses() == b.expenses(),
        inventory_rows(a.vault) == inventory_rows(b.vault) ==> a.inventories() == b.inventories(),
{
    if workshop_rows(a.vault) == workshop_rows(b.vault) {
        assert(a.workshops() =~= b.workshops());
    }
    if project_rows(a.vault) == project_rows(b.vault) {
        assert(a.projects() =~= b.projects());
    }
    if employee_rows(a.vault) == employee_rows(b.vault) {
        assert(a.employees() =~= b.employees());
    }
    if expense_rows(a.vault) == expense_rows(b.vault) {
        assert(a.expenses() =~= b.expenses());
    }
    if inventory_rows(a.vault) == inventory_rows(b.vault) {
        assert(a.inventories() =~= b.inventories());
    }
}

impl Store {
    /// The last id handed out; 0 before the first.
    pub closed spec fn last_id(self) -> u64 {
        id_counter(self.vault)
    }

    pub closed spec fn workshops(self) -> Map<u64, Workshop> {
        workshops_in(self.vault)
    }

    pub closed spec fn projects(self) -> Map<u64, Project> {
        projects_in(self.vault)
    }

    pub closed spec fn employees(self) -> Map<u64, Employee> {
        employees_in(self.vault)
    }

    pub closed spec fn expenses(self) -> Map<u64, Expense> {
        expenses_in(self.vault)
    }

    pub closed spec fn inventories(self) -> Map<u64, Inventory> {
        inventories_in(self.vault)
    }

    /// Every record's id lies in `1..=last_id`, and no id is used twice.
    pub closed spec fn wf(self) -> bool {
        &&& forall|k: u64| #[trigger] tables_holding(self, k) <= 1
        &&& forall|k: u64| #[trigger] tables_holding(self, k) > 0 ==> 1 <= k <= self.last_id()
    }

    /// A store over what `vault` holds, once the records pass
    /// `records_consistent`; otherwise `Error`, and the vault is dropped.
    pub fn open(vault: Vault) -> (r: Result<Store, Message>)
        ensures
            r is Ok <==> consistent(vault),
            r matches Err(m) ==> m is Error,
            r matches Ok(s) ==> {
                &&& s.wf()
                &&& s.last_id() == id_counter(vault)
                &&& s.workshops() == workshops_in(vault)
                &&& s.projects() == projects_in(vault)
                &&& s.employees() == employees_in(vault)
                &&& s.expenses() == expenses_in(vault)
                &&& s.inventories() == inventories_in(vault)
            },
    {
        if !records_consistent(&vault) {
            return Err(Message::Error("Stored records break the id rule".to_string()));
        }
        let s = Store { vault };
        proof {
            assert forall|k: u64| #[trigger] tables_holding(s, k) == holding_in(vault, k) by {}
        }
        Ok(s)
    }

    /// Takes the next id: one above the last, never handed out before. Gives
    /// `None`, and changes nothing, only when the counter is at its top.
    pub fn next_id(&mut self) -> (r: Option<u64>)
        requires
            old(self).wf(),
        ensures
            final(self).wf(),
            same_records(*final(self), *old(self)),
            old(self).last_id() == u64::MAX <==> r is None,
            r is None ==> final(self).last_id() == old(self).last_id(),
            r matches Some(id) ==> {
                &&& old(self).last_id() < u64::MAX
                &&& id == old(self).last_id() + 1
                &&& final(self).last_id() == id
            },
    {
        let current = self.vault.counter();
        if current == u64::MAX {
            return None;
        }
        let id = current + 1;
        self.vault.set_counter(id);
        proof {
            lemma_same_tables(*self, *old(self));
        }
        Some(id)
    }

    /// Checks the payload, then stores a new workshop under the next id,
    /// stamped with `now`.
    pub fn create_workshop(&mut self, payload: CreateWorkshopPayload, now: u64) -> (r: Result<
        Workshop,
        Message,
    >)
        requires
            old(self).wf(),
        ensures
            final(self).wf(),
            create_workshop_post(*old(self), *final(self), payload, now, r),
    {
        if is_blank(payload.name.as_str()) || is_blank(payload.contact.as_str()) || is_blank(
            payload.email.as_str(),
        ) {
            return Err(Message::InvalidPayload("Required fields are missing.".to_string()));
        }
        if !is_email_valid(payload.email.as_str()) {
            return Err(Message::InvalidPayload("Invalid email address.".to_string()));
        }
        let ghost start = *self;
        let id = match self.next_id() {
            Some(id) => id,
            None => {
                return Err(Message::Error("ID counter increment failed.".to_string()));
            },
        };
        let ghost mid = *self;
        let row = (
            (payload.name.clone(), payload.location.clone(), payload.owner.clone()),
            (payload.contact.clone(), payload.email.clone(), now),
            id,
        );
        let workshop = Workshop {
            id,
            name: payload.name,
            location: payload.location,
            owner: payload.owner,
            contact: payload.contact,
            email: payload.email,
            created_at: now,
        };
        self.vault.insert_workshop(id, row);
        proof {
            assert(workshop_of(id, row) == workshop);
            assert(self.workshops() =~= mid.workshops().insert(id, workshop));
            lemma_rows_match(*self, mid);
            assert(tables_holding(start, id) == 0);
            lemma_wf_after_add(start, *self, id);
        }
        Ok(workshop)
    }

    /// The workshop stored under `workshop_id`, or `NotFound`.
    pub fn get_workshop_by_id(&self, workshop_id: u64) -> (r: Result<Workshop, Message>)
        ensures
            self.workshops().contains_key(workshop_id) <==> r is Ok,
            r matches Ok(w) ==> w == self.workshops()[workshop_id],
            r is Err ==> not_found(r),
    {
        match self.vault.get_workshop(workshop_id) {
            Some(row) => Ok(Workshop::from_row(workshop_id, row)),
            None => Err(Message::NotFound("Workshop not found.".to_string())),
        }
    }

    /// Removes the workshop stored under `workshop_id`; its projects, staff,
    /// expenses and stock entries are left in place.
    pub fn delete_workshop(&mut self, workshop_id: u64) -> (r: Result<Message, Message>)
        requires
            old(self).wf(),
        ensures
            final(self).wf(),
            delete_workshop_post(*old(self), *final(self), workshop_id, r),
    {
        let removed = self.vault.remove_workshop(workshop_id);
        proof {
            assert(self.workshops() =~= old(self).workshops().remove(workshop_id));
            lemma_rows_match(*self, *old(self));
            assert forall|k: u64| #[trigger] tables_holding(*self, k) <= tables_holding(*old(self), k) by {}
        }
        match removed {
            Some(_) => Ok(Message::Success("Workshop deleted successfully.".to_string())),
            None => {
                assert(self.workshops() =~= old(self).workshops());
                Err(Message::NotFound("Workshop not found.".to_string()))
            },
        }
    }

    /// Checks the payload and the workshop, then stores a new ongoing project under the next id.
    pub fn create_project(
        &mut self,
        payload: CreateProjectPayload,
    ) -> (r: Result<Project, Message>)
        requires
            old(self).wf(),
        ensures
            final(self).wf(),
            project_payload_invalid(payload) <==> invalid_payload(r),
            !project_payload_invalid(payload) && !old(self).workshops().contains_key(payload.workshop_id)
                <==> not_found(r),
            !project_payload_invalid(payload) && old(self).workshops().contains_key(payload.workshop_id)
                && old(self).last_id() == u64::MAX ==> store_error(r),
            !project_payload_invalid(payload) && old(self).workshops().contains_key(payload.workshop_id)
                && old(self).last_id() < u64::MAX ==> r is Ok,
            r is Ok || invalid_payload(r) || not_found(r) || store_error(r),
            r is Err ==> same_state(*final(self), *old(self)),
            r matches Ok(x) ==> {
                &&& old(self).last_id() < u64::MAX
                &&& x.id == old(self).last_id() + 1
                &&& x == new_project(x.id, payload)
                &&& final(self).last_id() == x.id
                &&& final(self).projects() == old(self).projects().insert(x.id, x)
                &&& forall|k: u64| k != x.id ==> #[trigger] tables_holding(*final(self), k)
                    == tables_holding(*old(self), k)
                &&& final(self).workshops() == old(self).workshops()
                &&& final(self).employees() == old(self).employees()
                &&& final(self).expenses() == old(self).expenses()
                &&& final(self).inventories() == old(self).inventories()
            },
    {
        if payload.name.as_str().is_empty() || payload.description.as_str().is_empty()
            || payload.cost_estimate == 0 {
            return Err(Message::InvalidPayload("Missing required fields".to_string()));
        }
        if !self.vault.has_workshop(payload.workshop_id) {
            return Err(Message::NotFound("Workshop not found".to_string()));
        }
        let ghost start = *self;
        let id = match self.next_id() {
            Some(id) => id,
            None => {
                return Err(Message::Error("Counter increment failed".to_string()));
            },
        };
        let ghost mid = *self;
        let row = (
            (payload.name.clone(), payload.description.clone(), ProjectStatus::Ongoing.code()),
            (payload.workshop_id, payload.deadline, payload.cost_estimate),
            id,
        );
        let record = Project {
            id,
            workshop_id: payload.workshop_id,
            name: payload.name,
            description: payload.description,
            deadline: payload.deadline,
            cost_estimate: payload.cost_estimate,
            status: ProjectStatus::Ongoing,
        };
        self.vault.insert_project(id, row);
        proof {
            assert(self.projects() =~= mid.projects().insert(id, record));
            lemma_rows_match(*self, mid);
            assert(tables_holding(start, id) == 0);
            lemma_wf_after_add(start, *self, id);
        }
        Ok(record)
    }

    /// Checks the payload and the workshop, then stores a new active employee under the next id.
    pub fn add_employee(
        &mut self,
        payload: AddEmployeePayload,
    ) -> (r: Result<Employee, Message>)
        requires
            old(self).wf(),
        ensures
            final(self).wf(),
            employee_payload_invalid(payload) <==> invalid_payload(r),
            !employee_payload_invalid(payload) && !old(self).workshops().contains_key(payload.workshop_id)
                <==> not_found(r),
            !employee_payload_invalid(payload) && old(self).workshops().contains_key(payload.workshop_id)
                && old(self).last_id() == u64::MAX ==> store_error(r),
            !employee_payload_invalid(payload) && old(self).workshops().contains_key(payload.workshop_id)
                && old(self).last_id() < u64::MAX ==> r is Ok,
            r is Ok || invalid_payload(r) || not_found(r) || store_error(r),
            r is Err ==> same_state(*final(self), *old(self)),
            r matches Ok(x) ==> {
                &&& old(self).last_id() < u64::MAX
                &&& x.id == old(self).last_id() + 1
                &&& x == new_employee(x.id, payload)
                &&& final(self).last_id() == x.id
                &&& final(self).employees() == old(self).employees().insert(x.id, x)
                &&& forall|k: u64| k != x.id ==> #[trigger] tables_holding(*final(self), k)
                    == tables_holding(*old(self), k)
                &&& final(self).workshops() == old(self).workshops()
                &&& final(self).projects() == old(self).projects()
                &&& final(self).expenses() == old(self).expenses()
                &&& final(self).inventories() == old(self).inventories()
            },
    {
        if payload.name.as_str().is_empty() || payload.role.as_str().is_empty() || payload.hourly_rate
            == 0 {
            return Err(Message::InvalidPayload("Missing required fields".to_string()));
        }
        if !self.vault.has_workshop(payload.workshop_id) {
            return Err(Message::NotFound("Workshop not found".to_string()));
        }
        let ghost start = *self;
        let id = match self.next_id() {
            Some(id) => id,
            None => {
                return Err(Message::Error("Counter increment failed".to_string()));
            },
        };
        let ghost mid = *self;
        let row = (
            (id, payload.workshop_id),
            (payload.name.clone(), payload.role.clone(), payload.hourly_rate),
            true,
        );
        let record = Employee {
            id,
            workshop_id: payload.workshop_id,
            name: payload.name,
            role: payload.role,
            hourly_rate: payload.hourly_rate,
            is_active: true,
        };
        self.vault.insert_employee(id, row);
        proof {
            assert(self.employees() =~= mid.employees().insert(id, record));
            lemma_rows_match(*self, mid);
            assert(tables_holding(start, id) == 0);
            lemma_wf_after_add(start, *self, id);
        }
        Ok(record)
    }

    /// Checks the amount and the workshop, then stores a new expense under the next id, dated `now`.
    pub fn record_expense(
        &mut self,
        payload: RecordExpensePayload,
        now: u64,
    ) -> (r: Result<Expense, Message>)
        requires
            old(self).wf(),
        ensures
            final(self).wf(),
            expense_payload_invalid(payload) <==> invalid_payload(r),
            !expense_payload_invalid(payload) && !old(self).workshops().contains_key(payload.workshop_id)
                <==> not_found(r),
            !expense_payload_invalid(payload) && old(self).workshops().contains_key(payload.workshop_id)
                && old(self).last_id() == u64::MAX ==> store_error(r),
            !expense_payload_invalid(payload) && old(self).workshops().contains_key(payload.workshop_id)
                && old(self).last_id() < u64::MAX ==> r is Ok,
            r is Ok || invalid_payload(r) || not_found(r) || store_error(r),
            r is Err ==> same_state(*final(self), *old(self)),
            r matches Ok(x) ==> {
                &&& old(self).last_id() < u64::MAX
                &&& x.id == old(self).last_id() + 1
                &&& x == new_expense(x.id, payload, now)
                &&& final(self).last_id() == x.id
                &&& final(self).expenses() == old(self).expenses().insert(x.id, x)
                &&& forall|k: u64| k != x.id ==> #[trigger] tables_holding(*final(self), k)
                    == tables_holding(*old(self), k)
                &&& final(self).workshops() == old(self).workshops()
                &&& final(self).projects() == old(self).projects()
                &&& final(self).employees() == old(self).employees()
                &&& final(self).inventories() == old(self).inventories()
            },
    {
        if payload.amount == 0 {
            return Err(Message::InvalidPayload("Invalid expense amount".to_string()));
        }
        if !self.vault.has_workshop(payload.workshop_id) {
            return Err(Message::NotFound("Workshop not found".to_string()));
        }
        let ghost start = *self;
        let id = match self.next_id() {
            Some(id) => id,
            None => {
                return Err(Message::Error("Counter increment failed".to_string()));
            },
        };
        let ghost mid = *self;
        let row = (
            (id, payload.workshop_id),
            (payload.category.clone(), payload.description.clone(), payload.amount),
            now,
        );
        let record = Expense {
            id,
            workshop_id: payload.workshop_id,
            date: now,
            category: payload.category,
            amount: payload.amount,
            description: payload.description,
        };
        self.vault.insert_expense(id, row);
        proof {
            assert(self.expenses() =~= mid.expenses().insert(id, record));
            lemma_rows_match(*self, mid);
            assert(tables_holding(start, id) == 0);
            lemma_wf_after_add(start, *self, id);
        }
        Ok(record)
    }

    /// Checks the quantities and the workshop, then stores a new stock entry under the next id, dated `now`. An entry of the same item is never merged into.
    pub fn update_inventory(
        &mut self,
        payload: UpdateInventoryPayload,
        now: u64,
    ) -> (r: Result<Inventory, Message>)
        requires
            old(self).wf(),
        ensures
            final(self).wf(),
            inventory_payload_invalid(payload) <==> invalid_payload(r),
            !inventory_payload_invalid(payload) && !old(self).workshops().contains_key(payload.workshop_id)
                <==> not_found(r),
            !inventory_payload_invalid(payload) && old(self).workshops().contains_key(payload.workshop_id)
                && old(self).last_id() == u64::MAX ==> store_error(r),
            !inventory_payload_invalid(payload) && old(self).workshops().contains_key(payload.workshop_id)
                && old(self).last_id() < u64::MAX ==> r is Ok,
            r is Ok || invalid_payload(r) || not_found(r) || store_error(r),
            r is Err ==> same_state(*final(self), *old(self)),
            r matches Ok(x) ==> {
                &&& old(self).last_id() < u64::MAX
                &&& x.id == old(self).last_id() + 1
                &&& x == new_inventory(x.id, payload, now)
                &&& final(self).last_id() == x.id
                &&& final(self).inventories() == old(self).inventories().insert(x.id, x)
                &&& forall|k: u64| k != x.id ==> #[trigger] tables_holding(*final(self), k)
                    == tables_holding(*old(self), k)
                &&& final(self).workshops() == old(self).workshops()
                &&& final(self).projects() == old(self).projects()
                &&& final(self).employees() == old(self).employees()
                &&& final(self).expenses() == old(self).expenses()
            },
    {
        if payload.quantity == 0 || payload.unit_price == 0 {
            return Err(Message::InvalidPayload("Invalid inventory data".to_string()));
        }
        if !self.vault.has_workshop(payload.workshop_id) {
            return Err(Message::NotFound("Workshop not found".to_string()));
        }
        let ghost start = *self;
        let id = match self.next_id() {
            Some(id) => id,
            None => {
                return Err(Message::Error("Counter increment failed".to_string()));
            },
        };
        let ghost mid = *self;
        let row = (
            (id, payload.workshop_id),
            (payload.item_name.clone(), payload.quantity, payload.unit_price),
            now,
        );
        let record = Inventory {
            id,
            workshop_id: payload.workshop_id,
            item_name: payload.item_name,
            quantity: payload.quantity,
            unit_price: payload.unit_price,
            restock_date: now,
        };
        self.vault.insert_inventory(id, row);
        proof {
            assert(self.inventories() =~= mid.inventories().insert(id, record));
            lemma_rows_match(*self, mid);
            assert(tables_holding(start, id) == 0);
            lemma_wf_after_add(start, *self, id);
        }
        Ok(record)
    }

    /// Every workshop, by ascending id.
    pub fn list_workshops(&self) -> (r: Result<Vec<Workshop>, Message>)
        ensures
            r matches Ok(v) && lists_workshops(v@, self.workshops()),
    {
        let mut rows = self.vault.workshop_list();
        let ghost all = rows@;
        let ghost records = all.map_values(
            |p: (u64, WorkshopRow)| (p.0, workshop_of(p.0, p.1)),
        );
        proof {
            lemma_listing_converts(all, workshop_rows(self.vault), |k: u64, w: WorkshopRow| workshop_of(k, w));
            assert(self.workshops() =~= Map::new(
                |k: u64| workshop_rows(self.vault).contains_key(k),
                |k: u64| (|k: u64, w: WorkshopRow| workshop_of(k, w))(k, workshop_rows(self.vault)[k]),
            ));
            assert(records =~= all.map_values(
                |p: (u64, WorkshopRow)| (p.0, (|k: u64, w: WorkshopRow| workshop_of(k, w))(p.0, p.1)),
            ));
        }
        let mut out: Vec<Workshop> = Vec::new();
        while rows.len() > 0
            invariant
                rows.len() <= all.len(),
                rows@ == all.subrange(0, rows.len() as int),
                records.len() == all.len(),
                records == all.map_values(|p: (u64, WorkshopRow)| (p.0, workshop_of(p.0, p.1))),
                keyed(out@) == records.subrange(
                    rows.len() as int,
                    all.len() as int,
                ),
            decreases rows.len(),
        {
            let ghost n = rows.len() as int;
            let (id, row) = rows.pop().unwrap();
            let ghost before = out@;
            let w = Workshop::from_row(id, row);
            out.insert(0, w);
            proof {
                assert(all[n - 1] == (id, row));
                assert(records[n - 1] == (w.id, w));
                assert(out@ =~= seq![w] + before);
                let mo = keyed(out@);
                let mb = keyed(before);
                assert(mb == records.subrange(n, all.len() as int));
                assert forall|j: int| 0 < j < mo.len() implies #[trigger] mo[j] == records[n - 1 + j] by {
                    assert(out@[j] == before[j - 1]);
                    assert(mo.len() == before.len() + 1);
                    assert(0 <= j - 1 < mb.len());
                    assert(records.subrange(n, all.len() as int)[j - 1] == records[n + j - 1]);
                    assert(mb[j - 1] == records[n + j - 1]);
                    assert(mo[j] == (out@[j].id, out@[j]));
                    assert(mb[j - 1] == (before[j - 1].id, before[j - 1]));
                }
                assert(mo[0] == (w.id, w));
                assert(mb.len() == before.len());
                assert(mo.len() == out@.len());
                assert(records.subrange(n, all.len() as int).len() == all.len() - n);
                assert(mo.len() == all.len() - (n - 1));
                assert forall|j: int| 0 <= j < mo.len() implies #[trigger] mo[j] == records.subrange(
                    n - 1,
                    all.len() as int,
                )[j] by {
                    if j > 0 {
                        assert(mo[j] == records[n - 1 + j]);
                    }
                }
                assert(keyed(out@) =~= records.subrange(n - 1, all.len() as int));
                assert(rows@ =~= all.subrange(0, n - 1));
            }
        }
        proof {
            assert(records.subrange(0, all.len() as int) =~= records);
        }
        Ok(out)
    }

    /// Renames or relocates the workshop stored under `workshop_id`. A new
    /// value replaces the old one only where it is given and not blank.
    pub fn update_workshop_details(
        &mut self,
        workshop_id: u64,
        updated_name: Option<String>,
        updated_location: Option<String>,
    ) -> (r: Result<Message, Message>)
        requires
            old(self).wf(),
        ensures
            final(self).wf(),
            old(self).workshops().contains_key(workshop_id) <==> (r matches Ok(Message::Success(_))),
            !old(self).workshops().contains_key(workshop_id) <==> not_found(r),
            r is Err ==> same_state(*final(self), *old(self)),
            r is Ok ==> {
                &&& final(self).last_id() == old(self).last_id()
                &&& final(self).workshops() == old(self).workshops().insert(
                    workshop_id,
                    updated_workshop(old(self).workshops()[workshop_id], updated_name, updated_location),
                )
                &&& final(self).projects() == old(self).projects()
                &&& final(self).employees() == old(self).employees()
                &&& final(self).expenses() == old(self).expenses()
                &&& final(self).inventories() == old(self).inventories()
            },
    {
        match self.vault.get_workshop(workshop_id) {
            Some(row) => {
                let mut w = Workshop::from_row(workshop_id, row);
                let ghost w0 = w;
                if let Some(name) = updated_name {
                    if !is_blank(name.as_str()) {
                        w.name = name;
                    }
                }
                if let Some(location) = updated_location {
                    if !is_blank(location.as_str()) {
                        w.location = location;
                    }
                }
                let ghost w1 = w;
                let row = w.into_row();
                self.vault.insert_workshop(workshop_id, row);
                proof {
                    assert(w1 == updated_workshop(w0, updated_name, updated_location));
                    assert(self.workshops() =~= old(self).workshops().insert(workshop_id, w1));
                    lemma_rows_match(*self, *old(self));
                    assert forall|k: u64| #[trigger] tables_holding(*self, k) == tables_holding(*old(self), k) by {}
                }
                Ok(Message::Success("Workshop details updated successfully.".to_string()))
            },
            None => Err(Message::NotFound("Workshop not found.".to_string())),
        }
    }

    /// How many workshops are stored, capped at `usize::MAX`.
    pub fn count_workshops(&self) -> (r: usize)
        ensures
            r as nat == if self.workshops().len() <= usize::MAX as nat {
                self.workshops().len()
            } else {
                usize::MAX as nat
            },
    {
        let n = self.vault.workshop_count();
        proof {
            assert(self.workshops().dom() =~= workshop_rows(self.vault).dom());
        }
        if n as u128 > usize::MAX as u128 {
            usize::MAX
        } else {
            n as usize
        }
    }

    /// The sum of `amount` over the expenses of the workshop, or `NotFound`
    /// when no workshop is stored under `workshop_id`.
    pub fn calculate_total_expenses(&self, workshop_id: u64) -> (r: Result<u128, Message>)
        ensures
            !self.workshops().contains_key(workshop_id) <==> not_found(r),
            self.workshops().contains_key(workshop_id) ==> (r matches Ok(t) && t as nat
                == expense_total(self.expenses(), workshop_id)),
            r is Ok || not_found(r),
            self.workshops().contains_key(workshop_id) && (forall|k: u64| #[trigger]
                self.expenses().contains_key(k) ==> self.expenses()[k].workshop_id != workshop_id)
                ==> r == Ok::<u128, Message>(0),
    {
        if !self.vault.has_workshop(workshop_id) {
            return Err(Message::NotFound("Workshop not found".to_string()));
        }
        let list = self.vault.expense_list();
        let ghost es = list@.map_values(|p: (u64, ExpenseRow)| (p.0, expense_of(p.0, p.1)));
        let ghost share = expense_share(workshop_id);
        proof {
            lemma_listing_converts(list@, expense_rows(self.vault), |k: u64, e: ExpenseRow| expense_of(k, e));
            assert(self.expenses() =~= Map::new(
                |k: u64| expense_rows(self.vault).contains_key(k),
                |k: u64| (|k: u64, e: ExpenseRow| expense_of(k, e))(k, expense_rows(self.vault)[k]),
            ));
            assert(es =~= list@.map_values(
                |p: (u64, ExpenseRow)| (p.0, (|k: u64, e: ExpenseRow| expense_of(k, e))(p.0, p.1)),
            ));
            lemma_entries_is(es, self.expenses());
            if forall|k: u64| #[trigger] self.expenses().contains_key(k) ==> self.expenses()[k].workshop_id
                != workshop_id {
                assert forall|j: int| 0 <= j < es.len() implies share(#[trigger] es[j]) == 0 by {
                    assert(self.expenses().contains_key(es[j].0));
                }
                lemma_sum_zero(es, share);
            }
        }
        let mut total: u128 = 0;
        let mut i: usize = 0;
        while i < list.len()
            invariant
                i <= list.len(),
                es.len() == list.len(),
                es == list@.map_values(|p: (u64, ExpenseRow)| (p.0, expense_of(p.0, p.1))),
                share == expense_share(workshop_id),
                entries(self.expenses()) == es,
                self.workshops().contains_key(workshop_id),
                (forall|k: u64| #[trigger] self.expenses().contains_key(k)
                    ==> self.expenses()[k].workshop_id != workshop_id) ==> sum_of(es, share) == 0,
                total as nat == sum_of(es.take(i as int), share),
                total as nat <= i as nat * u64::MAX as nat,
            decreases list.len() - i,
        {
            let owner = list[i].1.0.1;
            let amount = list[i].1.1.2;
            let add: u128 = if owner == workshop_id {
                amount as u128
            } else {
                0
            };
            proof {
                assert(es.take(i + 1).drop_last() =~= es.take(i as int));
                assert(share(es[i as int]) == add as nat);
            }
            proof {
                lemma_sum_step(total as nat, i as nat, add as nat, u64::MAX as nat);
            }
            total = total + add;
            i = i + 1;
        }
        proof {
            assert(es.take(i as int) =~= es);
        }
        Ok(total)
    }

    /// The sum of `quantity * unit_price` over the stock entries of the workshop, or `NotFound`
    /// when no workshop is stored under `workshop_id`.
    pub fn calculate_inventory_value(&self, workshop_id: u64) -> (r: Result<WideSum, Message>)
        ensures
            !self.workshops().contains_key(workshop_id) <==> not_found(r),
            self.workshops().contains_key(workshop_id) ==> (r matches Ok(t) && t.value()
                == stock_total(self.inventories(), workshop_id)),
            r is Ok || not_found(r),
            self.workshops().contains_key(workshop_id) && (forall|k: u64| #[trigger]
                self.inventories().contains_key(k) ==> self.inventories()[k].workshop_id != workshop_id)
                ==> r == Ok::<WideSum, Message>(WideSum { high: 0, low: 0 }),
    {
        if !self.vault.has_workshop(workshop_id) {
            return Err(Message::NotFound("Workshop not found".to_string()));
        }
        let list = self.vault.inventory_list();
        let ghost es = list@.map_values(|p: (u64, InventoryRow)| (p.0, inventory_of(p.0, p.1)));
        let ghost share = stock_share(workshop_id);
        proof {
            lemma_listing_converts(list@, inventory_rows(self.vault), |k: u64, e: InventoryRow| inventory_of(k, e));
            assert(self.inventories() =~= Map::new(
                |k: u64| inventory_rows(self.vault).contains_key(k),
                |k: u64| (|k: u64, e: InventoryRow| inventory_of(k, e))(k, inventory_rows(self.vault)[k]),
            ));
            assert(es =~= list@.map_values(
                |p: (u64, InventoryRow)| (p.0, (|k: u64, e: InventoryRow| inventory_of(k, e))(p.0, p.1)),
            ));
            lemma_entries_is(es, self.inventories());
            if forall|k: u64| #[trigger] self.inventories().contains_key(k) ==> self.inventories()[k].workshop_id
                != workshop_id {
                assert forall|j: int| 0 <= j < es.len() implies share(#[trigger] es[j]) == 0 by {
                    assert(self.inventories().contains_key(es[j].0));
                }
                lemma_sum_zero(es, share);
            }
        }
        let mut total = WideSum { high: 0, low: 0 };
        let mut i: usize = 0;
        while i < list.len()
            invariant
                i <= list.len(),
                es.len() == list.len(),
                es == list@.map_values(|p: (u64, InventoryRow)| (p.0, inventory_of(p.0, p.1))),
                share == stock_share(workshop_id),
                entries(self.inventories()) == es,
                self.workshops().contains_key(workshop_id),
                (forall|k: u64| #[trigger] self.inventories().contains_key(k)
                    ==> self.inventories()[k].workshop_id != workshop_id) ==> sum_of(es, share) == 0,
                total.value() == sum_of(es.take(i as int), share),
                total.value() <= i as nat * (u64::MAX as nat * u64::MAX as nat),
            decreases list.len() - i,
        {
            let owner = list[i].1.0.1;
            let quantity = list[i].1.1.1;
            let unit_price = list[i].1.1.2;
            let add: u128 = if owner == workshop_id {
                proof {
                    lemma_product_fits(quantity, unit_price);
                }
                quantity as u128 * unit_price as u128
            } else {
                0
            };
            proof {
                assert(es.take(i + 1).drop_last() =~= es.take(i as int));
                assert(share(es[i as int]) == add as nat);
            }
            proof {
                lemma_stock_step(quantity, unit_price, add, i as nat, total.value());
            }
            total = wide_add(total, add, Ghost((i as nat + 1) * (u64::MAX as nat * u64::MAX as nat)));
            i = i + 1;
        }
        proof {
            assert(es.take(i as int) =~= es);
        }
        Ok(total)
    }
}

} // verus!
