use vstd::prelude::*;

verus! {

/// A workshop: the root entity that every other record belongs to.
#[derive(Clone, Debug, PartialEq, Eq)]
pub struct Workshop {
    pub id: u64,
    pub name: String,
    pub location: String,
    pub owner: String,
    pub contact: String,
    pub email: String,
    pub created_at: u64,
}

/// Where a project stands.
#[derive(Clone, Copy, Debug, PartialEq, Eq, Structural)]
pub enum ProjectStatus {
    Ongoing,
    Completed,
    Canceled,
}

/// A project of a workshop. Money is counted in the currency's smallest unit.
#[derive(Clone, Debug, PartialEq, Eq)]
pub struct Project {
    pub id: u64,
    pub workshop_id: u64,
    pub name: String,
    pub description: String,
    pub deadline: u64,
    pub cost_estimate: u64,
    pub status: ProjectStatus,
}

/// A member of a workshop's staff.
#[derive(Clone, Debug, PartialEq, Eq)]
pub struct Employee {
    pub id: u64,
    pub workshop_id: u64,
    pub name: String,
    pub role: String,
    pub hourly_rate: u64,
    pub is_active: bool,
}

/// An expense booked against a workshop.
#[derive(Clone, Debug, PartialEq, Eq)]
pub struct Expense {
    pub id: u64,
    pub workshop_id: u64,
    pub date: u64,
    pub category: String,
    pub amount: u64,
    pub description: String,
}

/// A stock entry of a workshop.
#[derive(Clone, Debug, PartialEq, Eq)]
pub struct Inventory {
    pub id: u64,
    pub workshop_id: u64,
    pub item_name: String,
    pub quantity: u64,
    pub unit_price: u64,
    pub restock_date: u64,
}

#[derive(Clone, Debug, PartialEq, Eq)]
pub struct CreateWorkshopPayload {
    pub name: String,
    pub location: String,
    pub owner: String,
    pub contact: String,
    pub email: String,
}

#[derive(Clone, Debug, PartialEq, Eq)]
pub struct CreateProjectPayload {
    pub workshop_id: u64,
    pub name: String,
    pub description: String,
    pub deadline: u64,
    pub cost_estimate: u64,
}

#[derive(Clone, Debug, PartialEq, Eq)]
pub struct AddEmployeePayload {
    pub workshop_id: u64,
    pub name: String,
    pub role: String,
    pub hourly_rate: u64,
}

#[derive(Clone, Debug, PartialEq, Eq)]
pub struct RecordExpensePayload {
    pub workshop_id: u64,
    pub category: String,
    pub amount: u64,
    pub description: String,
}

#[derive(Clone, Debug, PartialEq, Eq)]
pub struct UpdateInventoryPayload {
    pub workshop_id: u64,
    pub item_name: String,
    pub quantity: u64,
    pub unit_price: u64,
}

/// A sum too wide for one `u128`: `high * 2^128 + low`.
#[derive(Clone, Copy, Debug, PartialEq, Eq)]
pub struct WideSum {
    pub high: u64,
    pub low: u128,
}

impl WideSum {
    pub open spec fn value(self) -> nat {
        self.high as nat * (u128::MAX as nat + 1) + self.low as nat
    }
}

/// The outcome tag of an operation, with a message for people.
#[derive(Clone, Debug, PartialEq, Eq)]
pub enum Message {
    Success(String),
    Error(String),
    NotFound(String),
    InvalidPayload(String),
}

// Storage holds each record as nested tuples of plain values. A tuple with
// text in it must have three members, so every row carries the record's id
// as well; the key it is stored under is the id that counts.

/// `(name, location, owner)`, `(contact, email, created_at)`, `id`.
pub type WorkshopRow = ((String, String, String), (String, String, u64), u64);

/// `(name, description, status code)`, `(workshop_id, deadline, cost_estimate)`, `id`.
pub type ProjectRow = ((String, String, u8), (u64, u64, u64), u64);

/// `(id, workshop_id)`, `(name, role, hourly_rate)`, `is_active`.
pub type EmployeeRow = ((u64, u64), (String, String, u64), bool);

/// `(id, workshop_id)`, `(category, description, amount)`, `date`.
pub type ExpenseRow = ((u64, u64), (String, String, u64), u64);

/// `(id, workshop_id)`, `(item_name, quantity, unit_price)`, `restock_date`.
pub type InventoryRow = ((u64, u64), (String, u64, u64), u64);

impl ProjectStatus {
    pub open spec fn code_of(self) -> u8 {
        match self {
            ProjectStatus::Ongoing => 0,
            ProjectStatus::Completed => 1,
            ProjectStatus::Canceled => 2,
        }
    }

    /// Codes past the known ones read as canceled.
    pub open spec fn of_code(c: u8) -> ProjectStatus {
        if c == 0 {
            ProjectStatus::Ongoing
        } else if c == 1 {
            ProjectStatus::Completed
        } else {
            ProjectStatus::Canceled
        }
    }

    pub fn code(&self) -> (r: u8)
        ensures
            r == self.code_of(),
    {
        match self {
            ProjectStatus::Ongoing => 0,
            ProjectStatus::Completed => 1,
            ProjectStatus::Canceled => 2,
        }
    }

    pub fn from_code(c: u8) -> (r: ProjectStatus)
        ensures
            r == ProjectStatus::of_code(c),
            c <= 2 ==> r.code_of() == c,
    {
        if c == 0 {
            ProjectStatus::Ongoing
        } else if c == 1 {
            ProjectStatus::Completed
        } else {
            ProjectStatus::Canceled
        }
    }

    pub open spec fn label(self) -> Seq<char> {
        match self {
            ProjectStatus::Ongoing => "ongoing"@,
            ProjectStatus::Completed => "completed"@,
            ProjectStatus::Canceled => "canceled"@,
        }
    }

    /// The status as the lower-case word `ongoing`, `completed` or `canceled`.
    pub fn as_str(&self) -> (r: &'static str)
        ensures
            r@ == self.label(),
    {
        match self {
            ProjectStatus::Ongoing => "ongoing",
            ProjectStatus::Completed => "completed",
            ProjectStatus::Canceled => "canceled",
        }
    }
}

pub open spec fn workshop_of(id: u64, r: WorkshopRow) -> Workshop {
    Workshop {
        id,
        name: r.0.0,
        location: r.0.1,
        owner: r.0.2,
        contact: r.1.0,
        email: r.1.1,
        created_at: r.1.2,
    }
}

pub open spec fn project_of(id: u64, r: ProjectRow) -> Project {
    Project {
        id,
        workshop_id: r.1.0,
        name: r.0.0,
        description: r.0.1,
        deadline: r.1.1,
        cost_estimate: r.1.2,
        status: ProjectStatus::of_code(r.0.2),
    }
}

pub open spec fn employee_of(id: u64, r: EmployeeRow) -> Employee {
    Employee {
        id,
        workshop_id: r.0.1,
        name: r.1.0,
        role: r.1.1,
        hourly_rate: r.1.2,
        is_active: r.2,
    }
}

pub open spec fn expense_of(id: u64, r: ExpenseRow) -> Expense {
    Expense {
        id,
        workshop_id: r.0.1,
        date: r.2,
        category: r.1.0,
        amount: r.1.2,
        description: r.1.1,
    }
}

pub open spec fn inventory_of(id: u64, r: InventoryRow) -> Inventory {
    Inventory {
        id,
        workshop_id: r.0.1,
        item_name: r.1.0,
        quantity: r.1.1,
        unit_price: r.1.2,
        restock_date: r.2,
    }
}

impl Workshop {
    pub fn from_row(id: u64, row: WorkshopRow) -> (w: Workshop)
        ensures
            w == workshop_of(id, row),
    {
        let ((name, location, owner), (contact, email, created_at), _) = row;
        Workshop { id, name, location, owner, contact, email, created_at }
    }

    pub fn into_row(self) -> (r: WorkshopRow)
        ensures
            workshop_of(self.id, r) == self,
    {
        ((self.name, self.location, self.owner), (self.contact, self.email, self.created_at), self.id)
    }
}

} // verus!
