use vstd::prelude::*;

verus! {

/// State of one heap cell.
#[derive(Debug, PartialEq, Eq, Structural, Clone, Copy, Default)]
pub enum Status {
    #[default]
    Free,
    Allocated,
    Marked,
    Used,
}

/// One cell of the heap's address space.
#[derive(Debug, PartialEq, Eq, Structural, Clone, Copy, Default)]
pub struct Memory {
    pub status: Status,
}

/// The name of a status, as `inspector` reports it.
pub open spec fn status_name(s: Status) -> Seq<char> {
    match s {
        Status::Free => "Free"@,
        Status::Allocated => "Allocated"@,
        Status::Marked => "Marked"@,
        Status::Used => "Used"@,
    }
}

impl Memory {
    pub fn new(status: Status) -> (r: Self)
        ensures
            r.status == status,
    {
        Self { status }
    }

    /// A free cell.
    pub fn free() -> (r: Self)
        ensures
            r.status == Status::Free,
    {
        Self { status: Status::Free }
    }

    /// The name of the cell's status.
    pub fn inspector(&self) -> (r: String)
        ensures
            r@ == status_name(self.status),
    {
        match self.status {
            Status::Free => "Free".to_owned(),
            Status::Allocated => "Allocated".to_owned(),
            Status::Marked => "Marked".to_owned(),
            Status::Used => "Used".to_owned(),
        }
    }
}

} // verus!
