//! Work handed to another thread, and the state of the elder tab.
use vstd::prelude::*;
use std::sync::Arc;
use std::sync::atomic::AtomicUsize;
use std::sync::mpsc::{Receiver, TryRecvError};
use crate::npc::{extract_all_sect_elders, roster_matches, tables_fit, AgeDraw, GameData, SectData, ELDERS};
use crate::text::{decimal, push_decimal, push_str};

verus! {

#[verifier::external_type_specification]
#[verifier::external_body]
#[verifier::reject_recursive_types(T)]
pub struct ExReceiver<T>(Receiver<T>);

/// Why `Receiver::try_recv` gave no value.
#[derive(Clone, Copy, Debug, PartialEq, Eq, Structural)]
pub enum RecvGap {
    /// Nothing has been sent yet.
    Empty,
    /// The sender is gone.
    Disconnected,
}

/// `Receiver::try_recv`, its error told apart variant by variant: the value
/// that the worker sent, or `Empty` while none is waiting yet, or
/// `Disconnected` when the worker is gone.  Which of these comes back
/// depends on the other thread, so nothing is stated of it.
#[verifier::external_body]
fn try_recv<T>(rx: &Receiver<T>) -> (r: Result<T, RecvGap>) {
    match rx.try_recv() {
        Ok(v) => Ok(v),
        Err(TryRecvError::Empty) => Err(RecvGap::Empty),
        Err(TryRecvError::Disconnected) => Err(RecvGap::Disconnected),
    }
}

/// Why a task ended without a result.
#[derive(Clone, Copy, Debug, PartialEq, Eq, Structural)]
pub enum TaskError {
    /// The worker went away without sending its result.
    Disconnected,
}

/// A job running on another thread: whether it runs, its progress counter
/// (which the worker raises), how many steps it has, and the channel its
/// result comes back on.
#[verifier::reject_recursive_types(T)]
pub struct BackgroundTask<T> {
    pub is_running: bool,
    pub progress: Arc<AtomicUsize>,
    pub total_tasks: usize,
    pub rx: Option<Receiver<T>>,
}

impl<T> BackgroundTask<T> {
    /// Whether a result is still awaited.
    pub open spec fn waiting(&self) -> bool {
        self.rx is Some
    }

    /// An idle task: not running, no steps, no channel.
    pub fn new() -> (r: Self)
        ensures
            !r.is_running,
            r.total_tasks == 0,
            !r.waiting(),
    {
        BackgroundTask { is_running: false, progress: Arc::new(AtomicUsize::new(0)), total_tasks: 0, rx: None }
    }

    /// Marks the task as running `t` steps, with its counter back at zero,
    /// awaiting its result on `rx`.
    pub fn begin(&mut self, t: usize, rx: Receiver<T>)
        ensures
            final(self).is_running,
            final(self).total_tasks == t,
            final(self).progress == old(self).progress,
            final(self).waiting(),
    {
        self.is_running = true;
        self.total_tasks = t;
        self.progress.store(0, std::sync::atomic::Ordering::Relaxed);
        self.rx = Some(rx);
    }

    /// Looks for the result without waiting.  Nothing while none is
    /// awaited or none has come yet; otherwise the task stops and hands out
    /// the result, or `TaskError::Disconnected` when the worker went away
    /// without one.
    pub fn poll(&mut self) -> (r: Option<Result<T, TaskError>>)
        ensures
            !old(self).waiting() ==> r is None,
            r is None ==> *final(self) == *old(self),
            r is Some ==> {
                &&& old(self).waiting()
                &&& !final(self).is_running
                &&& !final(self).waiting()
                &&& final(self).total_tasks == old(self).total_tasks
                &&& final(self).progress == old(self).progress
            },
    {
        let got = match &self.rx {
            Some(rx) => try_recv(rx),
            None => {
                return None;
            },
        };
        self.settle(got)
    }

    /// What a look for the result makes of what the channel gave: a value
    /// stops the task and is handed out; `Empty` leaves the task as it is
    /// and hands out nothing; `Disconnected` stops the task and hands out
    /// `TaskError::Disconnected`.  A stopped task keeps its steps and its
    /// counter.
    pub fn settle(&mut self, got: Result<T, RecvGap>) -> (r: Option<Result<T, TaskError>>)
        ensures
            match got {
                Ok(v) => r == Some(Ok::<T, TaskError>(v)),
                Err(RecvGap::Empty) => r is None,
                Err(RecvGap::Disconnected) => r == Some(Err::<T, TaskError>(TaskError::Disconnected)),
            },
            r is None ==> *final(self) == *old(self),
            r is Some ==> {
                &&& !final(self).is_running
                &&& !final(self).waiting()
                &&& final(self).total_tasks == old(self).total_tasks
                &&& final(self).progress == old(self).progress
            },
    {
        match got {
            Ok(v) => {
                self.is_running = false;
                self.rx = None;
                Some(Ok(v))
            },
            Err(RecvGap::Empty) => None,
            Err(RecvGap::Disconnected) => {
                self.is_running = false;
                self.rx = None;
                Some(Err(TaskError::Disconnected))
            },
        }
    }
}

impl<T> Default for BackgroundTask<T> {
    fn default() -> (r: Self)
        ensures
            !r.is_running,
            r.total_tasks == 0,
            !r.waiting(),
    {
        Self::new()
    }
}

/// The state of the elder tab: the world seed, the message shown, the
/// settings directory, the elders found and the tables read.
pub struct NpcTabState {
    pub target_seed: i32,
    pub status_msg: String,
    pub settings_path: String,
    pub sect_results: Vec<SectData>,
    pub game_data: Arc<GameData>,
}

impl NpcTabState {
    /// A tab with seed 0, no messages, no directory, no elders and empty
    /// tables.
    pub fn new() -> (r: Self)
        ensures
            r.target_seed == 0,
            r.status_msg@.len() == 0,
            r.settings_path@.len() == 0,
            r.sect_results.len() == 0,
            !r.game_data.loaded,
            r.game_data.tables_empty(),
    {
        NpcTabState {
            target_seed: 0,
            status_msg: String::new(),
            settings_path: String::new(),
            sect_results: Vec::new(),
            game_data: Arc::new(GameData::new()),
        }
    }

    /// The elder tab computes at once, on the thread that asks: it is never
    /// busy.
    pub fn is_busy(&self) -> (b: bool)
        ensures
            !b,
    {
        false
    }
}

/// The message shown once the tables are read: how many clothes,
/// materials, talismans and tools they hold.
pub open spec fn loaded_message(d: GameData) -> Seq<char> {
    "✅ 解析成功! 衣:"@ + decimal(d.clothes.len() as nat) + " 材:"@ + decimal(d.stuffs.len() as nat)
        + " 符:"@ + decimal(d.spells.len() as nat) + " 具:"@ + decimal(d.tools.len() as nat)
}

/// The loaded message counts the clothes after `衣:`, the materials (the
/// stuffs table) after `材:`, the talismans (the spells table) after `符:`
/// and the tools after `具:`.
pub proof fn law_loaded_message_counts(d: GameData)
    ensures
        loaded_message(d) == "✅ 解析成功! 衣:"@ + decimal(d.clothes.len() as nat) + " 材:"@ + decimal(
            d.stuffs.len() as nat,
        ) + " 符:"@ + decimal(d.spells.len() as nat) + " 具:"@ + decimal(d.tools.len() as nat),
{
}


impl NpcTabState {
    /// Takes the tables read from the settings directory `path`, and says
    /// how much they hold.
    pub fn settings_loaded(&mut self, path: String, data: GameData)
        ensures
            final(self).settings_path == path,
            *final(self).game_data == data,
            final(self).status_msg@ == loaded_message(data),
            final(self).status_msg@ == "✅ 解析成功! 衣:"@ + decimal(data.clothes.len() as nat) + " 材:"@ + decimal(
                data.stuffs.len() as nat,
            ) + " 符:"@ + decimal(data.spells.len() as nat) + " 具:"@ + decimal(data.tools.len() as nat),
            final(self).target_seed == old(self).target_seed,
            final(self).sect_results == old(self).sect_results,
    {
        let mut msg = String::new();
        push_str(&mut msg, "✅ 解析成功! 衣:");
        push_decimal(&mut msg, data.clothes.len() as u64);
        push_str(&mut msg, " 材:");
        push_decimal(&mut msg, data.stuffs.len() as u64);
        push_str(&mut msg, " 符:");
        push_decimal(&mut msg, data.spells.len() as u64);
        push_str(&mut msg, " 具:");
        push_decimal(&mut msg, data.tools.len() as u64);
        self.settings_path = path;
        self.game_data = Arc::new(data);
        self.status_msg = msg;
    }

    /// Finds the elders of the thirteen sects for the tab's seed; `ages`
    /// holds what the floating-point age draws of the 390 elders left
    /// behind, in roster order.
    pub fn show_elders(&mut self, ages: &Vec<AgeDraw>)
        requires
            tables_fit(&*old(self).game_data),
            ages.len() == ELDERS,
        ensures
            roster_matches(
                final(self).sect_results@,
                &*final(self).game_data,
                final(self).target_seed,
                ages@,
            ),
            final(self).status_msg@ == "✅ 13 门派双层级大能数据溯源完毕！"@,
            final(self).target_seed == old(self).target_seed,
            final(self).game_data == old(self).game_data,
            final(self).settings_path == old(self).settings_path,
    {
        self.sect_results = extract_all_sect_elders(self.target_seed, &self.game_data, ages);
        self.status_msg = String::new();
        push_str(&mut self.status_msg, "✅ 13 门派双层级大能数据溯源完毕！");
        assert(Seq::<char>::empty() + "✅ 13 门派双层级大能数据溯源完毕！"@ =~= "✅ 13 门派双层级大能数据溯源完毕！"@);
    }
}

impl Default for NpcTabState {
    fn default() -> (r: Self)
        ensures
            r.target_seed == 0,
            r.status_msg@.len() == 0,
            r.settings_path@.len() == 0,
            r.sect_results.len() == 0,
            !r.game_data.loaded,
            r.game_data.tables_empty(),
    {
        Self::new()
    }
}

} // verus!
