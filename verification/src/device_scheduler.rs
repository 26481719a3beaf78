//! Size of the bounded device scheduler plane.

use vstd::prelude::*;

use crate::device_sizing::{SizingQuantity, topology_valid};
use crate::image::SimulationImage;
use crate::model::{NodeKind, SchedulerKind};

verus! {

/// Limbs of one exact rational: numerator and denominator limbs of five words each.
pub const RATIONAL_LIMBS: usize = 5;
pub const RATIONAL_WORDS: usize = 10;
/// Fixed scheduler words of every LP.
pub const SCHEDULER_NODE_WORDS: usize = 25;
/// Words of one scheduler class.
pub const SCHEDULER_CLASS_WORDS: usize = 12;

/// Classes of a queue discipline: none for FIFO, one per priority or weight otherwise.
pub open spec fn scheduler_class_count(scheduler: SchedulerKind) -> nat {
    match scheduler {
        SchedulerKind::Fifo => 0,
        SchedulerKind::StaticPriority { priorities } => priorities@.len(),
        SchedulerKind::WeightedFairQueue(state) => state.weights@.len(),
    }
}

/// Scheduler words after the first `nodes` LPs, or the first overflow: each switch's first
/// queue adds its class state, and a weighted-fair queue adds one exact rational tag per slot
/// of the switch's queue capacity.
pub open spec fn scheduler_words_upto(
    image: SimulationImage,
    queue_capacities: Seq<usize>,
    nodes: nat,
) -> Result<usize, SizingQuantity>
    decreases nodes,
{
    if nodes == 0 {
        if image.nodes.len() * SCHEDULER_NODE_WORDS > usize::MAX {
            Err(SizingQuantity::SchedulerMetadata)
        } else {
            Ok((image.nodes.len() * SCHEDULER_NODE_WORDS) as usize)
        }
    } else {
        match scheduler_words_upto(image, queue_capacities, (nodes - 1) as nat) {
            Err(quantity) => Err(quantity),
            Ok(words) => {
                let node = image.nodes[nodes - 1];
                let queues = image.switch_states[node.state_slot as int].queues@;
                if !(node.kind is Switch) || queues.len() == 0 {
                    Ok(words)
                } else {
                    let classes = scheduler_class_count(queues[0].scheduler) * SCHEDULER_CLASS_WORDS;
                    if classes > usize::MAX {
                        Err(SizingQuantity::SchedulerClassState)
                    } else if words + classes > usize::MAX {
                        Err(SizingQuantity::SchedulerClassArena)
                    } else if !(queues[0].scheduler is WeightedFairQueue) {
                        Ok((words + classes) as usize)
                    } else {
                        let tags = queue_capacities[node.id.0 as int] * RATIONAL_WORDS;
                        if tags > usize::MAX {
                            Err(SizingQuantity::SchedulerQueueTag)
                        } else if words + classes + tags > usize::MAX {
                            Err(SizingQuantity::SchedulerQueueTagArena)
                        } else {
                            Ok((words + classes + tags) as usize)
                        }
                    }
                }
            },
        }
    }
}

/// Words of the scheduler plane, at least one.
pub open spec fn spec_device_scheduler_word_count(
    image: SimulationImage,
    queue_capacities: Seq<usize>,
) -> Result<usize, SizingQuantity> {
    match scheduler_words_upto(image, queue_capacities, image.nodes.len() as nat) {
        Err(quantity) => Err(quantity),
        Ok(words) => Ok(if words >= 1 { words } else { 1 }),
    }
}

proof fn lemma_scheduler_words_stay_err(
    image: SimulationImage,
    queue_capacities: Seq<usize>,
    nodes: nat,
    quantity: SizingQuantity,
)
    requires
        nodes <= image.nodes.len(),
        scheduler_words_upto(image, queue_capacities, nodes) == Err::<usize, SizingQuantity>(
            quantity,
        ),
    ensures
        spec_device_scheduler_word_count(image, queue_capacities) == Err::<usize, SizingQuantity>(
            quantity,
        ),
    decreases image.nodes.len() - nodes,
{
    if nodes < image.nodes.len() {
        lemma_scheduler_words_stay_err(image, queue_capacities, nodes + 1, quantity);
    }
}

/// Words of the scheduler plane for the given per-LP queue capacities.
pub fn device_scheduler_word_count(image: &SimulationImage, queue_capacities: &Vec<usize>) -> (words:
    Result<usize, SizingQuantity>)
    requires
        topology_valid(*image),
        queue_capacities.len() == image.nodes.len(),
    ensures
        words == spec_device_scheduler_word_count(*image, queue_capacities@),
{
    let mut words = match image.nodes.len().checked_mul(SCHEDULER_NODE_WORDS) {
        Some(words) => words,
        None => {
            proof {
                lemma_scheduler_words_stay_err(
                    *image,
                    queue_capacities@,
                    0,
                    SizingQuantity::SchedulerMetadata,
                );
            }
            return Err(SizingQuantity::SchedulerMetadata);
        },
    };
    let mut index: usize = 0;
    while index < image.nodes.len()
        invariant
            topology_valid(*image),
            queue_capacities.len() == image.nodes.len(),
            index <= image.nodes.len(),
            scheduler_words_upto(*image, queue_capacities@, index as nat) == Ok::<
                usize,
                SizingQuantity,
            >(words),
        decreases image.nodes.len() - index,
    {
        let node = image.nodes[index];
        let next = match node.kind {
            NodeKind::Host => Ok(words),
            NodeKind::Switch => {
                let queues = &image.switch_states[node.state_slot as usize].queues;
                if queues.len() == 0 {
                    Ok(words)
                } else {
                    let scheduler = &queues[0].scheduler;
                    let class_count = match scheduler {
                        SchedulerKind::Fifo => 0,
                        SchedulerKind::StaticPriority { priorities } => priorities.len(),
                        SchedulerKind::WeightedFairQueue(state) => state.weights.len(),
                    };
                    match class_count.checked_mul(SCHEDULER_CLASS_WORDS) {
                        None => Err(SizingQuantity::SchedulerClassState),
                        Some(classes) => match words.checked_add(classes) {
                            None => Err(SizingQuantity::SchedulerClassArena),
                            Some(with_classes) => match scheduler {
                                SchedulerKind::WeightedFairQueue(_) => {
                                    let slot = node.id.0 as usize;
                                    match queue_capacities[slot].checked_mul(RATIONAL_WORDS) {
                                        None => Err(SizingQuantity::SchedulerQueueTag),
                                        Some(tags) => match with_classes.checked_add(tags) {
                                            None => Err(SizingQuantity::SchedulerQueueTagArena),
                                            Some(total) => Ok(total),
                                        },
                                    }
                                },
                                _ => Ok(with_classes),
                            },
                        },
                    }
                }
            },
        };
        assert(next == scheduler_words_upto(*image, queue_capacities@, index as nat + 1));
        match next {
            Ok(value) => words = value,
            Err(quantity) => {
                proof {
                    lemma_scheduler_words_stay_err(
                        *image,
                        queue_capacities@,
                        index as nat + 1,
                        quantity,
                    );
                }
                return Err(quantity);
            },
        }
        index += 1;
    }
    Ok(
        if words >= 1 {
            words
        } else {
            1
        },
    )
}

} // verus!
