//! The data of a critical path analysis.
//!
//! - [`Task`]: a unit of work to be scheduled
//! - [`TaskKind`]: domain-neutral classification of work
//! - [`TaskBatch`]: a group of tasks that can run in parallel
//! - [`Bottleneck`]: a task that blocks significant downstream work
//! - [`CriticalPathResult`]: the full analysis
//!
//! Hours are whole numbers of millionths of an hour; see [`TICKS_PER_HOUR`].

use vstd::prelude::*;
use vstd::string::*;

use crate::ratio::Ratio;
use crate::text::{copy_texts, same_text};

verus! {

/// Number of time units in one hour.
pub const TICKS_PER_HOUR: i64 = 1_000_000;

/// Kind of task that can be planned.
#[derive(Debug)]
pub enum TaskKind {
    /// Break a circular dependency cycle in the task graph.
    BreakCycle {
        /// Node ids forming the cycle.
        cycle: Vec<String>,
    },
    /// Implement a requirement.
    ImplementSpec {
        /// Opaque identifier of what to implement.
        spec_id: String,
    },
    /// Custom user-defined task.
    Custom {
        /// Free-form description of the work.
        description: String,
    },
}

/// Mathematical form of [`TaskKind`].
#[verifier::ext_equal]
pub enum KindView {
    /// See [`TaskKind::BreakCycle`].
    BreakCycle { cycle: Seq<Seq<char>> },
    /// See [`TaskKind::ImplementSpec`].
    ImplementSpec { spec_id: Seq<char> },
    /// See [`TaskKind::Custom`].
    Custom { description: Seq<char> },
}

impl DeepView for TaskKind {
    type V = KindView;

    open spec fn deep_view(&self) -> KindView {
        match *self {
            TaskKind::BreakCycle { cycle } => KindView::BreakCycle { cycle: cycle.deep_view() },
            TaskKind::ImplementSpec { spec_id } => KindView::ImplementSpec { spec_id: spec_id@ },
            TaskKind::Custom { description } => KindView::Custom { description: description@ },
        }
    }
}

/// The short label of a kind.
pub open spec fn kind_label(kind: KindView) -> Seq<char> {
    match kind {
        KindView::BreakCycle { .. } => "CYCLE"@,
        KindView::ImplementSpec { spec_id } => "SPEC-"@ + spec_id,
        KindView::Custom { .. } => "CUSTOM"@,
    }
}

impl TaskKind {
    /// The short label of this kind.
    pub fn to_string(&self) -> (r: String)
        ensures
            r@ == kind_label(self.deep_view()),
    {
        match self {
            TaskKind::BreakCycle { .. } => String::from_str("CYCLE"),
            TaskKind::ImplementSpec { spec_id } => {
                let mut r = String::from_str("SPEC-");
                r.append(spec_id.as_str());
                r
            },
            TaskKind::Custom { .. } => String::from_str("CUSTOM"),
        }
    }
}

impl Clone for TaskKind {
    fn clone(&self) -> (r: Self)
        ensures
            r.deep_view() == self.deep_view(),
    {
        match self {
            TaskKind::BreakCycle { cycle } => TaskKind::BreakCycle { cycle: copy_texts(cycle) },
            TaskKind::ImplementSpec { spec_id } => TaskKind::ImplementSpec { spec_id: spec_id.clone() },
            TaskKind::Custom { description } => TaskKind::Custom { description: description.clone() },
        }
    }
}

/// Status of a task in the execution plan.
#[derive(Debug, Clone, Copy, PartialEq, Eq, Structural)]
pub enum TaskStatus {
    /// Not started, dependencies may not be met.
    Pending,
    /// Dependencies met, can start.
    Ready,
    /// Currently being worked on.
    InProgress,
    /// Successfully completed.
    Completed,
    /// Has unmet dependencies.
    Blocked,
}

impl Default for TaskStatus {
    fn default() -> (r: Self)
        ensures
            r == TaskStatus::Pending,
    {
        TaskStatus::Pending
    }
}

/// The name of a status.
pub open spec fn task_status_label(status: TaskStatus) -> Seq<char> {
    match status {
        TaskStatus::Pending => "pending"@,
        TaskStatus::Ready => "ready"@,
        TaskStatus::InProgress => "in_progress"@,
        TaskStatus::Completed => "completed"@,
        TaskStatus::Blocked => "blocked"@,
    }
}

impl TaskStatus {
    /// The name of this status.
    pub fn to_string(&self) -> (r: String)
        ensures
            r@ == task_status_label(*self),
    {
        match self {
            TaskStatus::Pending => String::from_str("pending"),
            TaskStatus::Ready => String::from_str("ready"),
            TaskStatus::InProgress => String::from_str("in_progress"),
            TaskStatus::Completed => String::from_str("completed"),
            TaskStatus::Blocked => String::from_str("blocked"),
        }
    }
}

/// A single task.
#[derive(Debug)]
pub struct Task {
    /// Unique identifier.
    pub id: String,
    /// Human-readable name.
    pub name: String,
    /// Type of task.
    pub kind: TaskKind,
    /// Estimated effort.
    pub effort_hours: i64,
    /// Ids of the tasks that must complete before this can start.
    pub dependencies: Vec<String>,
    /// Current status.
    pub status: TaskStatus,
    /// Earliest start time.
    pub earliest_start: i128,
    /// Earliest finish time.
    pub earliest_finish: i128,
    /// Latest start time.
    pub latest_start: i128,
    /// Latest finish time.
    pub latest_finish: i128,
    /// Slack: latest start minus earliest start.
    pub float: i128,
    /// Is the task on the critical path?
    pub is_critical: bool,
    /// Files affected by the task.
    pub affected_files: Vec<String>,
}

/// Mathematical form of [`Task`].
#[verifier::ext_equal]
pub struct TaskView {
    /// Unique identifier.
    pub id: Seq<char>,
    /// Human-readable name.
    pub name: Seq<char>,
    /// Type of task.
    pub kind: KindView,
    /// Estimated effort.
    pub effort: int,
    /// Ids of the tasks this one waits for.
    pub dependencies: Seq<Seq<char>>,
    /// Current status.
    pub status: TaskStatus,
    /// Earliest start time.
    pub earliest_start: int,
    /// Earliest finish time.
    pub earliest_finish: int,
    /// Latest start time.
    pub latest_start: int,
    /// Latest finish time.
    pub latest_finish: int,
    /// Slack.
    pub float: int,
    /// Is the task on the critical path?
    pub is_critical: bool,
    /// Files affected by the task.
    pub affected_files: Seq<Seq<char>>,
}

impl DeepView for Task {
    type V = TaskView;

    open spec fn deep_view(&self) -> TaskView {
        TaskView {
            id: self.id@,
            name: self.name@,
            kind: self.kind.deep_view(),
            effort: self.effort_hours as int,
            dependencies: self.dependencies.deep_view(),
            status: self.status,
            earliest_start: self.earliest_start as int,
            earliest_finish: self.earliest_finish as int,
            latest_start: self.latest_start as int,
            latest_finish: self.latest_finish as int,
            float: self.float as int,
            is_critical: self.is_critical,
            affected_files: self.affected_files.deep_view(),
        }
    }
}

/// The task that has nothing filled in.
pub open spec fn blank_task() -> TaskView {
    TaskView {
        id: Seq::empty(),
        name: Seq::empty(),
        kind: KindView::Custom { description: Seq::empty() },
        effort: 0,
        dependencies: Seq::empty(),
        status: TaskStatus::Pending,
        earliest_start: 0,
        earliest_finish: 0,
        latest_start: 0,
        latest_finish: 0,
        float: 0,
        is_critical: false,
        affected_files: Seq::empty(),
    }
}

impl Default for Task {
    fn default() -> (r: Self)
        ensures
            r.deep_view() == blank_task(),
    {
        let r = Task {
            id: String::new(),
            name: String::new(),
            kind: TaskKind::Custom { description: String::new() },
            effort_hours: 0,
            dependencies: Vec::new(),
            status: TaskStatus::Pending,
            earliest_start: 0,
            earliest_finish: 0,
            latest_start: 0,
            latest_finish: 0,
            float: 0,
            is_critical: false,
            affected_files: Vec::new(),
        };
        assert(r.deep_view() =~~= blank_task());
        r
    }
}

impl Clone for Task {
    fn clone(&self) -> (r: Self)
        ensures
            r.deep_view() == self.deep_view(),
    {
        Task {
            id: self.id.clone(),
            name: self.name.clone(),
            kind: self.kind.clone(),
            effort_hours: self.effort_hours,
            dependencies: copy_texts(&self.dependencies),
            status: self.status,
            earliest_start: self.earliest_start,
            earliest_finish: self.earliest_finish,
            latest_start: self.latest_start,
            latest_finish: self.latest_finish,
            float: self.float,
            is_critical: self.is_critical,
            affected_files: copy_texts(&self.affected_files),
        }
    }
}

impl Task {
    /// Creates a task with the given id, name, kind and effort.
    pub fn new(id: &str, name: &str, kind: TaskKind, effort_hours: i64) -> (r: Self)
        ensures
            r.deep_view() == (TaskView {
                id: id@,
                name: name@,
                kind: kind.deep_view(),
                effort: effort_hours as int,
                ..blank_task()
            }),
    {
        let mut r = Task::default();
        r.id = String::from_str(id);
        r.name = String::from_str(name);
        r.kind = kind;
        r.effort_hours = effort_hours;
        r
    }

    /// Adds a dependency to the task.
    #[must_use]
    pub fn depends_on(self, task_id: &str) -> (r: Self)
        ensures
            r.deep_view() == (TaskView {
                dependencies: self.deep_view().dependencies.push(task_id@),
                ..self.deep_view()
            }),
    {
        let mut r = self;
        r.dependencies.push(String::from_str(task_id));
        assert(r.dependencies.deep_view() =~= self.dependencies.deep_view().push(task_id@));
        r
    }

    /// Adds an affected file.
    #[must_use]
    pub fn affects_file(self, file: &str) -> (r: Self)
        ensures
            r.deep_view() == (TaskView {
                affected_files: self.deep_view().affected_files.push(file@),
                ..self.deep_view()
            }),
    {
        let mut r = self;
        r.affected_files.push(String::from_str(file));
        assert(r.affected_files.deep_view() =~= self.affected_files.deep_view().push(file@));
        r
    }
}

/// Copies a list of tasks.
pub fn copy_tasks(tasks: &Vec<Task>) -> (r: Vec<Task>)
    ensures
        r.deep_view() == tasks.deep_view(),
{
    let mut r: Vec<Task> = Vec::new();
    for i in 0..tasks.len()
        invariant
            r.len() == i,
            forall|k: int| 0 <= k < i ==> (#[trigger] r[k]).deep_view() == tasks[k].deep_view(),
    {
        r.push(tasks[i].clone());
    }
    assert(r.deep_view() =~= tasks.deep_view());
    r
}

/// A batch of tasks that can run in parallel.
#[derive(Debug)]
pub struct TaskBatch {
    /// Batch identifier (such as "Batch-1").
    pub id: String,
    /// Tasks in this batch (all have the same earliest start).
    pub tasks: Vec<String>,
    /// Total effort if done sequentially.
    pub total_effort_hours: i128,
    /// Largest effort in the batch.
    pub duration_hours: i64,
    /// Earliest start time for this batch.
    pub start_time: i128,
}

/// Mathematical form of [`TaskBatch`].
#[verifier::ext_equal]
pub struct BatchView {
    /// Batch identifier.
    pub id: Seq<char>,
    /// Tasks in this batch.
    pub tasks: Seq<Seq<char>>,
    /// Total effort.
    pub total_effort: int,
    /// Largest effort.
    pub duration: int,
    /// Start time.
    pub start_time: int,
}

impl DeepView for TaskBatch {
    type V = BatchView;

    open spec fn deep_view(&self) -> BatchView {
        BatchView {
            id: self.id@,
            tasks: self.tasks.deep_view(),
            total_effort: self.total_effort_hours as int,
            duration: self.duration_hours as int,
            start_time: self.start_time as int,
        }
    }
}

impl Default for TaskBatch {
    fn default() -> (r: Self)
        ensures
            r.deep_view() == (BatchView {
                id: Seq::empty(),
                tasks: Seq::empty(),
                total_effort: 0,
                duration: 0,
                start_time: 0,
            }),
    {
        let r = TaskBatch {
            id: String::new(),
            tasks: Vec::new(),
            total_effort_hours: 0,
            duration_hours: 0,
            start_time: 0,
        };
        assert(r.tasks.deep_view() =~= Seq::empty());
        r
    }
}

impl Clone for TaskBatch {
    fn clone(&self) -> (r: Self)
        ensures
            r.deep_view() == self.deep_view(),
    {
        TaskBatch {
            id: self.id.clone(),
            tasks: copy_texts(&self.tasks),
            total_effort_hours: self.total_effort_hours,
            duration_hours: self.duration_hours,
            start_time: self.start_time,
        }
    }
}

/// A task that blocks significant downstream work.
#[derive(Debug)]
pub struct Bottleneck {
    /// The task's id.
    pub task_id: String,
    /// The task's name.
    pub task_name: String,
    /// Number of tasks blocked by this one (directly or transitively).
    pub blocks_count: usize,
    /// Total hours of work blocked.
    pub blocked_hours: i128,
    /// Blocked hours over own effort.
    pub roi: Ratio,
    /// Effort to complete the task.
    pub effort_hours: i64,
}

/// Mathematical form of [`Bottleneck`].
#[verifier::ext_equal]
pub struct BottleneckView {
    /// The task's id.
    pub task_id: Seq<char>,
    /// The task's name.
    pub task_name: Seq<char>,
    /// Number of blocked tasks.
    pub blocks_count: int,
    /// Total effort of the blocked tasks.
    pub blocked_effort: int,
    /// Blocked effort over own effort.
    pub roi: Ratio,
    /// Own effort.
    pub effort: int,
}

impl DeepView for Bottleneck {
    type V = BottleneckView;

    open spec fn deep_view(&self) -> BottleneckView {
        BottleneckView {
            task_id: self.task_id@,
            task_name: self.task_name@,
            blocks_count: self.blocks_count as int,
            blocked_effort: self.blocked_hours as int,
            roi: self.roi,
            effort: self.effort_hours as int,
        }
    }
}

impl Clone for Bottleneck {
    fn clone(&self) -> (r: Self)
        ensures
            r.deep_view() == self.deep_view(),
    {
        Bottleneck {
            task_id: self.task_id.clone(),
            task_name: self.task_name.clone(),
            blocks_count: self.blocks_count,
            blocked_hours: self.blocked_hours,
            roi: self.roi,
            effort_hours: self.effort_hours,
        }
    }
}

/// The outcome of a critical path analysis.
#[derive(Debug)]
pub struct CriticalPathResult {
    /// Total number of tasks in the plan.
    pub total_tasks: usize,
    /// Tasks on the critical path, in order of execution.
    pub critical_path: Vec<String>,
    /// Duration of the critical path.
    pub critical_path_duration: i128,
    /// Total duration if done sequentially.
    pub total_duration_sequential: i128,
    /// Optimal duration with parallelization.
    pub optimal_duration_parallel: i128,
    /// Sequential over parallel duration.
    pub speedup_factor: Ratio,
    /// Batches for parallel execution.
    pub parallelizable_batches: Vec<TaskBatch>,
    /// Bottleneck tasks, highest return first.
    pub bottlenecks: Vec<Bottleneck>,
    /// All tasks with calculated times.
    pub tasks: Vec<Task>,
    /// Ids that could not be scheduled. Non-empty exactly when the dependency
    /// graph is cyclic or otherwise unschedulable; in that case no other field
    /// may be trusted.
    pub unscheduled: Vec<String>,
}

/// Mathematical form of [`CriticalPathResult`].
#[verifier::ext_equal]
pub struct ResultView {
    /// Total number of tasks.
    pub total_tasks: int,
    /// Tasks on the critical path.
    pub critical_path: Seq<Seq<char>>,
    /// Duration of the critical path.
    pub critical_path_duration: int,
    /// Total effort.
    pub sequential: int,
    /// Optimal duration with parallelization.
    pub parallel: int,
    /// Sequential over parallel duration.
    pub speedup: Ratio,
    /// Batches.
    pub batches: Seq<BatchView>,
    /// Bottlenecks.
    pub bottlenecks: Seq<BottleneckView>,
    /// Tasks with calculated times.
    pub tasks: Seq<TaskView>,
    /// Ids that could not be scheduled.
    pub unscheduled: Seq<Seq<char>>,
}

impl DeepView for CriticalPathResult {
    type V = ResultView;

    open spec fn deep_view(&self) -> ResultView {
        ResultView {
            total_tasks: self.total_tasks as int,
            critical_path: self.critical_path.deep_view(),
            critical_path_duration: self.critical_path_duration as int,
            sequential: self.total_duration_sequential as int,
            parallel: self.optimal_duration_parallel as int,
            speedup: self.speedup_factor,
            batches: self.parallelizable_batches.deep_view(),
            bottlenecks: self.bottlenecks.deep_view(),
            tasks: self.tasks.deep_view(),
            unscheduled: self.unscheduled.deep_view(),
        }
    }
}

/// The result that has nothing filled in.
pub open spec fn blank_result() -> ResultView {
    ResultView {
        total_tasks: 0,
        critical_path: Seq::empty(),
        critical_path_duration: 0,
        sequential: 0,
        parallel: 0,
        speedup: Ratio { num: 0, den: 1 },
        batches: Seq::empty(),
        bottlenecks: Seq::empty(),
        tasks: Seq::empty(),
        unscheduled: Seq::empty(),
    }
}

impl Default for CriticalPathResult {
    fn default() -> (r: Self)
        ensures
            r.deep_view() == blank_result(),
    {
        let r = CriticalPathResult {
            total_tasks: 0,
            critical_path: Vec::new(),
            critical_path_duration: 0,
            total_duration_sequential: 0,
            optimal_duration_parallel: 0,
            speedup_factor: Ratio { num: 0, den: 1 },
            parallelizable_batches: Vec::new(),
            bottlenecks: Vec::new(),
            tasks: Vec::new(),
            unscheduled: Vec::new(),
        };
        assert(r.deep_view() =~~= blank_result());
        r
    }
}

impl Clone for CriticalPathResult {
    fn clone(&self) -> (r: Self)
        ensures
            r.deep_view() == self.deep_view(),
    {
        let mut batches: Vec<TaskBatch> = Vec::new();
        for i in 0..self.parallelizable_batches.len()
            invariant
                batches.len() == i,
                forall|k: int| 0 <= k < i ==> (#[trigger] batches[k]).deep_view() == self.parallelizable_batches[k].deep_view(),
        {
            batches.push(self.parallelizable_batches[i].clone());
        }
        let mut bottlenecks: Vec<Bottleneck> = Vec::new();
        for i in 0..self.bottlenecks.len()
            invariant
                bottlenecks.len() == i,
                forall|k: int| 0 <= k < i ==> (#[trigger] bottlenecks[k]).deep_view() == self.bottlenecks[k].deep_view(),
        {
            bottlenecks.push(self.bottlenecks[i].clone());
        }
        assert(batches.deep_view() =~= self.parallelizable_batches.deep_view());
        assert(bottlenecks.deep_view() =~= self.bottlenecks.deep_view());
        CriticalPathResult {
            total_tasks: self.total_tasks,
            critical_path: copy_texts(&self.critical_path),
            critical_path_duration: self.critical_path_duration,
            total_duration_sequential: self.total_duration_sequential,
            optimal_duration_parallel: self.optimal_duration_parallel,
            speedup_factor: self.speedup_factor,
            parallelizable_batches: batches,
            bottlenecks,
            tasks: copy_tasks(&self.tasks),
            unscheduled: copy_texts(&self.unscheduled),
        }
    }
}

impl CriticalPathResult {
    /// The first task with the given id.
    #[must_use]
    pub fn get_task(&self, id: &str) -> (r: Option<&Task>)
        ensures
            match r {
                Some(t) => exists|k: int| #![trigger self.tasks[k]] {
                    &&& 0 <= k < self.tasks.len()
                    &&& *t == self.tasks[k]
                    &&& self.tasks[k].id@ == id@
                    &&& forall|j: int| 0 <= j < k ==> (#[trigger] self.tasks[j]).id@ != id@
                },
                None => forall|j: int| 0 <= j < self.tasks.len() ==> (#[trigger] self.tasks[j]).id@ != id@,
            },
    {
        for i in 0..self.tasks.len()
            invariant
                forall|j: int| 0 <= j < i ==> (#[trigger] self.tasks[j]).id@ != id@,
        {
            if same_text(self.tasks[i].id.as_str(), id) {
                return Some(&self.tasks[i]);
            }
        }
        None
    }
}

} // verus!
