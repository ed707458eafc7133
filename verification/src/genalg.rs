//! Decisions of the genetic search over the initial conditions of the galaxy: the phases of a
//! generation, the end of a simulation run, and what the evaluation of a run does with the best
//! genome kept locally and the one shared on disk.

use vstd::prelude::*;

verus! {

/// Phase of the genetic search.
#[derive(Clone, Copy, Debug, PartialEq, Eq, Structural, Hash, Default)]
pub enum AppState {
    /// Spawning the bodies of a generation.
    #[default]
    Init,
    /// Running the simulation.
    Simulate,
    /// Scoring the run.
    Evaluate,
    /// Deriving the next genome.
    Mutate,
}

/// Counts one simulation tick; the run moves to evaluation once `max_ticks` ticks are reached.
pub fn track_simulation(current_tick: &mut usize, max_ticks: usize) -> (next_state: Option<
    AppState,
>)
    requires
        *old(current_tick) < usize::MAX,
    ensures
        *final(current_tick) == *old(current_tick) + 1,
        next_state == (if *final(current_tick) >= max_ticks {
            Some(AppState::Evaluate)
        } else {
            None::<AppState>
        }),
{
    *current_tick = *current_tick + 1;
    if *current_tick >= max_ticks {
        Some(AppState::Evaluate)
    } else {
        None
    }
}

/// What the evaluation of a run does with the best genome.
#[derive(Clone, Copy, Debug, PartialEq, Eq, Structural)]
pub enum BestUpdate {
    /// The genome shared on disk beats both the local best and the evaluated one: adopt it,
    /// with its fitness and generation.
    AdoptDisk,
    /// The evaluated genome is the best: it becomes the local best under `generation` and is
    /// saved to disk.
    SaveEvaluated { generation: usize },
    /// The local best beats the copy on disk: it is saved again under `generation`.
    RewriteLocalBest { generation: usize },
    /// Nothing changes.
    Keep,
}

/// Whether the outcome records a generation one past the one read from disk.
pub open spec fn takes_new_generation(
    fitness_above_best: bool,
    disk_above_best: bool,
    disk_above_fitness: bool,
    best_above_disk: bool,
) -> bool {
    if fitness_above_best || disk_above_best {
        !disk_above_fitness
    } else {
        best_above_disk
    }
}

/// The outcome of an evaluation, from the comparisons of the evaluated fitness, the local best
/// fitness and the fitness read from disk.
pub open spec fn best_update_spec(
    fitness_above_best: bool,
    disk_above_best: bool,
    disk_above_fitness: bool,
    best_above_disk: bool,
    disk_genome_read: bool,
    disk_generation: usize,
) -> BestUpdate {
    if fitness_above_best || disk_above_best {
        if disk_above_fitness {
            if disk_genome_read {
                BestUpdate::AdoptDisk
            } else {
                BestUpdate::Keep
            }
        } else {
            BestUpdate::SaveEvaluated { generation: (disk_generation + 1) as usize }
        }
    } else if best_above_disk {
        BestUpdate::RewriteLocalBest { generation: (disk_generation + 1) as usize }
    } else {
        BestUpdate::Keep
    }
}

/// Decides the outcome of an evaluation. `fitness_above_best` compares the evaluated fitness
/// with the local best, `disk_above_best` and `disk_above_fitness` the fitness read from disk
/// with those two, `best_above_disk` the local best with the disk; `disk_genome_read` tells
/// whether a genome could be read from disk, and `disk_generation` is its generation (0 when
/// none was read).
pub fn best_update(
    fitness_above_best: bool,
    disk_above_best: bool,
    disk_above_fitness: bool,
    best_above_disk: bool,
    disk_genome_read: bool,
    disk_generation: usize,
) -> (update: BestUpdate)
    requires
        takes_new_generation(fitness_above_best, disk_above_best, disk_above_fitness, best_above_disk)
            ==> disk_generation < usize::MAX,
    ensures
        update == best_update_spec(
            fitness_above_best,
            disk_above_best,
            disk_above_fitness,
            best_above_disk,
            disk_genome_read,
            disk_generation,
        ),
{
    if fitness_above_best || disk_above_best {
        if disk_above_fitness {
            if disk_genome_read {
                BestUpdate::AdoptDisk
            } else {
                BestUpdate::Keep
            }
        } else {
            BestUpdate::SaveEvaluated { generation: disk_generation + 1 }
        }
    } else if best_above_disk {
        BestUpdate::RewriteLocalBest { generation: disk_generation + 1 }
    } else {
        BestUpdate::Keep
    }
}

/// With the evaluated fitness `f`, the local best `b` and the fitness `d` read from disk, an
/// evaluation never writes a genome over a better one on disk and only adopts a strictly better
/// one: the disk genome is adopted only when it beats both others, the evaluated genome is saved
/// only when it beats the local best and is at least as good as the disk's, and the local best
/// is written back only when it beats the disk's and is at least as good as the evaluated one.
pub proof fn lemma_no_better_genome_lost(f: int, b: int, d: int, read: bool, generation: usize)
    ensures
        ({
            let update = best_update_spec(f > b, d > b, d > f, b > d, read, generation);
            &&& update == BestUpdate::AdoptDisk ==> d > f && d > b
            &&& update is SaveEvaluated ==> f > b && f >= d
            &&& update is RewriteLocalBest ==> b > d && b >= f
            &&& update == BestUpdate::Keep ==> (b >= f && b >= d) || (!read && d > f)
        }),
{
}

/// The outcome of an evaluation from the three fitnesses: with the evaluated fitness `f`, the
/// local best `b` and the fitness `d` read from disk,
/// - a disk genome that beats both others is adopted when it could be read, and nothing
///   changes when it could not;
/// - an evaluated genome that beats the local best and is at least as good as the disk's is
///   saved, one generation past the disk's;
/// - a local best that beats the disk's and is at least as good as the evaluated one is written
///   back, one generation past the disk's, whether or not a genome was read;
/// - when the local best ties the disk's and the evaluated one is no better, nothing changes.
pub proof fn lemma_outcome_by_fitness(f: int, b: int, d: int, read: bool, generation: usize)
    requires
        generation < usize::MAX,
    ensures
        ({
            let update = best_update_spec(f > b, d > b, d > f, b > d, read, generation);
            &&& (d > f && d > b && read ==> update == BestUpdate::AdoptDisk)
            &&& (d > f && d > b && !read ==> update == BestUpdate::Keep)
            &&& (f > b && f >= d ==> update == BestUpdate::SaveEvaluated {
                generation: (generation + 1) as usize,
            })
            &&& (b > d && b >= f ==> update == BestUpdate::RewriteLocalBest {
                generation: (generation + 1) as usize,
            })
            &&& (b == d && b >= f ==> update == BestUpdate::Keep)
        }),
{
}

/// Whatever comparisons lead to it, a genome saved or written back is recorded one generation
/// past the generation read from disk.
pub proof fn lemma_saved_generation_follows_disk(
    fitness_above_best: bool,
    disk_above_best: bool,
    disk_above_fitness: bool,
    best_above_disk: bool,
    disk_genome_read: bool,
    disk_generation: usize,
)
    requires
        disk_generation < usize::MAX,
    ensures
        ({
            let update = best_update_spec(
                fitness_above_best,
                disk_above_best,
                disk_above_fitness,
                best_above_disk,
                disk_genome_read,
                disk_generation,
            );
            &&& (update matches BestUpdate::SaveEvaluated { generation } ==> generation
                == disk_generation + 1)
            &&& (update matches BestUpdate::RewriteLocalBest { generation } ==> generation
                == disk_generation + 1)
        }),
{
}

/// The best fitness kept locally once the outcome `update` is applied: the disk's when it is
/// adopted, the evaluated one when it is saved, the local best otherwise.
pub open spec fn best_fitness_after(update: BestUpdate, f: int, b: int, d: int) -> int {
    match update {
        BestUpdate::AdoptDisk => d,
        BestUpdate::SaveEvaluated { .. } => f,
        _ => b,
    }
}

/// The largest of three values.
pub open spec fn max3(a: int, b: int, c: int) -> int {
    let m = if a >= b { a } else { b };
    if m >= c { m } else { c }
}

/// After an evaluation the local best fitness is the largest of the evaluated fitness `f`, the
/// previous local best `b` and the fitness `d` on disk, so it never decreases. When no genome
/// was read, `d` stands for a fitness below the evaluated one (the evaluated fitness is never
/// negative, and an unreadable disk counts as -1).
pub proof fn lemma_best_fitness_is_max(f: int, b: int, d: int, read: bool, generation: usize)
    requires
        !read ==> d < f,
    ensures
        ({
            let update = best_update_spec(f > b, d > b, d > f, b > d, read, generation);
            &&& best_fitness_after(update, f, b, d) == max3(b, f, d)
            &&& best_fitness_after(update, f, b, d) >= b
        }),
{
}

/// How a generation starts, from the genome read from disk.
#[derive(Clone, Copy, Debug, PartialEq, Eq, Structural)]
pub enum InitChoice {
    /// First generation, a genome was read: it becomes the current and the best genome, with
    /// its fitness and generation.
    AdoptDisk,
    /// First generation, nothing could be read: start from the default genome.
    Fallback,
    /// Later generation, the disk holds a better genome than the local best: adopt it as the
    /// best and run a mutation of it.
    Migrate,
    /// Later generation otherwise: run the current genome.
    KeepCurrent,
}

/// Chooses how a generation starts: `first_generation` tells whether this is the first one,
/// `disk_read` whether a genome could be read from disk, and `disk_above_best` whether its
/// fitness beats the local best.
pub fn init_choice(first_generation: bool, disk_read: bool, disk_above_best: bool) -> (c: InitChoice)
    ensures
        c == (if first_generation {
            if disk_read {
                InitChoice::AdoptDisk
            } else {
                InitChoice::Fallback
            }
        } else if disk_read && disk_above_best {
            InitChoice::Migrate
        } else {
            InitChoice::KeepCurrent
        }),
{
    if first_generation {
        if disk_read {
            InitChoice::AdoptDisk
        } else {
            InitChoice::Fallback
        }
    } else if disk_read && disk_above_best {
        InitChoice::Migrate
    } else {
        InitChoice::KeepCurrent
    }
}

} // verus!
