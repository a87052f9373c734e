use vstd::prelude::*;

verus! {

/// Whether a task is still open or done.
#[derive(Debug, PartialEq, Eq, Structural, Clone, Copy)]
pub enum TaskStatus {
    New,
    Done,
}

/// A task found in a note: its title, its subtasks, its status and its id.
pub struct Task {
    pub title: String,
    pub subtasks: Vec<u128>,
    pub status: TaskStatus,
    pub id: u128,
}

/// The mathematical value of a task.
pub struct TaskModel {
    pub title: Seq<char>,
    pub subtasks: Seq<u128>,
    pub status: TaskStatus,
    pub id: u128,
}

impl Task {
    pub open spec fn model(&self) -> TaskModel {
        TaskModel { title: self.title@, subtasks: self.subtasks@, status: self.status, id: self.id }
    }
}

/// The models of the tasks of a task map.
pub open spec fn tasks_model(m: Map<u128, Task>) -> Map<u128, TaskModel> {
    m.map_values(|t: Task| t.model())
}

/// A fresh random task id, as `uuid::Uuid::new_v4` makes them: version 4, RFC 4122 variant.
pub open spec fn is_v4_id(id: u128) -> bool {
    &&& (id >> 76u128) & 0xfu128 == 4
    &&& (id >> 62u128) & 0x3u128 == 2
}

/// Calls `uuid::Uuid::new_v4` and returns the id as its 128-bit value (`Uuid::as_u128`). The
/// source of `new_v4` masks random bits so that the version nibble is 4 and the variant bits are
/// `10`, which is what the contract states; the other bits are random, so nothing more is stated.
/// `new_v4` stops the program only where the system's random source fails.
#[verifier::external_body]
pub(crate) fn new_id() -> (id: u128)
    ensures
        is_v4_id(id),
{
    uuid::Uuid::new_v4().as_u128()
}

} // verus!
