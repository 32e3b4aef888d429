//! A robot's task queue: tasks carry a priority rank (1 is most urgent)
//! and are worked off in ascending rank.

use vstd::prelude::*;
use vstd::seq_lib::group_to_multiset_ensures;

verus! {

broadcast use group_to_multiset_ensures, vstd::multiset::group_multiset_axioms, vstd::string::group_string_axioms;

/// A unit of work: a name, a priority rank (lower is more urgent) and a
/// free-form description.
pub struct Task {
    pub name: String,
    pub priority: u8,
    pub description: String,
}

/// Whether the robot is between tasks or working.
pub enum RobotState {
    Idle,
    Busy,
}

/// A robot with a priority-ordered queue of pending tasks.
pub struct Robot {
    pub name: String,
    pub state: RobotState,
    pub task_queue: Vec<Task>,
}

impl Robot {
    /// A new idle robot with an empty queue.
    pub fn new(name: &str) -> (r: Self)
        ensures
            r.name@ == name@,
            r.state is Idle,
            r.task_queue@ =~= Seq::<Task>::empty(),
    {
        Robot { name: name.to_string(), state: RobotState::Idle, task_queue: Vec::new() }
    }

    /// Appends a task to the queue; ordering happens when the queue is
    /// processed.
    pub fn add_task(&mut self, name: &str, priority: u8, description: &str)
        ensures
            final(self).name@ == old(self).name@,
            final(self).state == old(self).state,
            final(self).task_queue@.len() == old(self).task_queue@.len() + 1,
            forall|i: int|
                0 <= i < old(self).task_queue@.len() ==> #[trigger] final(self).task_queue@[i]
                    == old(self).task_queue@[i],
            final(self).task_queue@.last().name@ == name@,
            final(self).task_queue@.last().priority == priority,
            final(self).task_queue@.last().description@ == description@,
    {
        self.task_queue.push(
            Task { name: name.to_string(), priority, description: description.to_string() },
        );
    }

    /// Drains the queue in ascending priority rank (most urgent first)
    /// and returns the tasks in the order they were worked; the robot
    /// ends idle with an empty queue.
    pub fn process_tasks(&mut self) -> (done: Vec<Task>)
        ensures
            final(self).name@ == old(self).name@,
            final(self).state is Idle,
            final(self).task_queue@.len() == 0,
            done@.len() == old(self).task_queue@.len(),
            done@.to_multiset() == old(self).task_queue@.to_multiset(),
            forall|i: int, j: int|
                0 <= i < j < done@.len() ==> (#[trigger] done@[i]).priority
                    <= (#[trigger] done@[j]).priority,
    {
        let mut done: Vec<Task> = Vec::new();
        while self.task_queue.len() > 0
            invariant
                self.name@ == old(self).name@,
                done@.len() + self.task_queue@.len() == old(self).task_queue@.len(),
                done@.to_multiset().add(self.task_queue@.to_multiset()) == old(
                    self,
                ).task_queue@.to_multiset(),
                forall|i: int, j: int|
                    0 <= i < j < done@.len() ==> (#[trigger] done@[i]).priority
                        <= (#[trigger] done@[j]).priority,
                forall|i: int, j: int|
                    0 <= i < done@.len() && 0 <= j < self.task_queue@.len() ==> (
                    #[trigger] done@[i]).priority <= (#[trigger] self.task_queue@[j]).priority,
            decreases self.task_queue@.len(),
        {
            // Select the earliest task of least rank.
            let mut best_i: usize = 0;
            let mut best_p: u8 = self.task_queue[0].priority;
            let mut j: usize = 1;
            while j < self.task_queue.len()
                invariant
                    1 <= j <= self.task_queue@.len(),
                    best_i < j,
                    best_p == self.task_queue@[best_i as int].priority,
                    forall|k: int|
                        0 <= k < j ==> best_p <= (#[trigger] self.task_queue@[k]).priority,
                decreases self.task_queue@.len() - j,
            {
                if self.task_queue[j].priority < best_p {
                    best_i = j;
                    best_p = self.task_queue[j].priority;
                }
                j = j + 1;
            }
            self.state = RobotState::Busy;
            let ghost q_before = self.task_queue@;
            let ghost done_before = done@;
            let t = self.task_queue.remove(best_i);
            proof {
                assert(q_before.contains(q_before[best_i as int]));
            }
            done.push(t);
            proof {
                assert(done@ =~= done_before.push(t));
                assert(done@.to_multiset() =~= done_before.to_multiset().insert(t));
                assert(self.task_queue@ =~= q_before.remove(best_i as int));
                assert(self.task_queue@.to_multiset() =~= q_before.to_multiset().remove(t));
                assert(q_before.to_multiset().count(t) > 0);
                assert(done@.to_multiset().add(self.task_queue@.to_multiset()) =~= old(
                    self,
                ).task_queue@.to_multiset());
            }
        }
        self.state = RobotState::Idle;
        proof {
            assert(done@.to_multiset().add(self.task_queue@.to_multiset())
                =~= done@.to_multiset());
        }
        done
    }
}

} // verus!
