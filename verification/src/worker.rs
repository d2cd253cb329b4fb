//! The synchronization worker: the state machine that seeds a snapshot from
//! the first frame of a push stream and applies every later raw block to it,
//! deciding for each block whether a fresh snapshot is delivered to the
//! consumer, the block is skipped, or the session terminates.

use vstd::prelude::*;
use crate::frame::key_data;
use crate::frame::key_data_vec;
use crate::frame::parse_frame;
use crate::frame::parse_frame_spec;
use crate::frame::ChangeFrame;
use crate::frame::FrameKind;
use crate::frame::SFrame;
use crate::frame::SyncFault;
use crate::json::decode_json;
use crate::json::json_decoded;
use crate::tree::clone_tree;
use crate::tree::lemma_olookup_some;
use crate::tree::model_entries;
use crate::tree::obj_get;
use crate::tree::obj_lookup;
use crate::tree::olookup;
use crate::tree::patch_value;
use crate::tree::replace_value;
use crate::tree::spatch;
use crate::tree::sput;
use crate::tree::swf;
use crate::tree::STree;
use crate::tree::TreeValue;

verus! {

/// What one block did to the session: a fresh snapshot to hand to the
/// consumer, a recoverable fault absorbed silently, a keep-alive ignored, or
/// the termination signal.
#[derive(Debug, PartialEq, Eq)]
pub enum StepAction {
    Deliver(TreeValue),
    Skipped(SyncFault),
    Ignored,
    Terminated,
}

/// Model of a step's outcome.
pub ghost enum SStep {
    Deliver(STree),
    Skipped(SyncFault),
    Ignored,
    Terminated,
}

impl View for StepAction {
    type V = SStep;

    open spec fn view(&self) -> SStep {
        match self {
            StepAction::Deliver(t) => SStep::Deliver(t@),
            StepAction::Skipped(f) => SStep::Skipped(*f),
            StepAction::Ignored => SStep::Ignored,
            StepAction::Terminated => SStep::Terminated,
        }
    }
}

/// The new snapshot and the outcome of applying one raw block: a malformed
/// block is skipped, a keep-alive is ignored, Cancel and AuthRevoked
/// terminate, a Put replaces and a Patch merges at the frame's pointer, each
/// delivering the new snapshot on success and skipping when the pointer does
/// not resolve.
pub open spec fn step_spec(snap: STree, block: Seq<u8>) -> (STree, SStep) {
    match parse_frame_spec(block) {
        None => (snap, SStep::Skipped(SyncFault::MalformedFrame)),
        Some(SFrame::Control(k)) => if k is KeepAlive {
            (snap, SStep::Ignored)
        } else {
            (snap, SStep::Terminated)
        },
        Some(SFrame::Update { kind, path, value }) => {
            let r = if kind is Put {
                sput(snap, path, value)
            } else {
                spatch(snap, path, value)
            };
            if r.1 {
                (r.0, SStep::Deliver(r.0))
            } else {
                (snap, SStep::Skipped(SyncFault::PathNotFound))
            }
        },
    }
}

/// The snapshot a session seeds from the first frame's payload: the full
/// initial document under "data".
pub open spec fn seed_spec(s: Seq<u8>) -> Option<STree> {
    match json_decoded(s) {
        Some(m) => obj_lookup(m, key_data()),
        None => None,
    }
}

/// Replaying raw blocks in order from a seed snapshot; a terminating block
/// ends the replay (nothing later is read).
pub open spec fn replay(snap: STree, blocks: Seq<Seq<u8>>) -> STree
    decreases blocks.len(),
{
    if blocks.len() == 0 {
        snap
    } else {
        let r = step_spec(snap, blocks[0]);
        if r.1 is Terminated {
            r.0
        } else {
            replay(r.0, blocks.drop_first())
        }
    }
}

/// Law (determinism): replaying the same blocks in the same order from the
/// same seed always yields the same final snapshot.
pub proof fn lemma_replay_deterministic(
    seed1: STree,
    seed2: STree,
    blocks1: Seq<Seq<u8>>,
    blocks2: Seq<Seq<u8>>,
)
    requires
        seed1 == seed2,
        blocks1 == blocks2,
    ensures
        replay(seed1, blocks1) == replay(seed2, blocks2),
{
}

/// Law: a keep-alive frame never mutates the snapshot and never delivers.
pub proof fn lemma_keep_alive_no_effect(snap: STree, block: Seq<u8>)
    requires
        parse_frame_spec(block) == Some(SFrame::Control(FrameKind::KeepAlive)),
    ensures
        step_spec(snap, block).0 == snap,
        step_spec(snap, block).1 == SStep::Ignored,
{
}

/// One subscription session: the local snapshot of the mirrored document and
/// whether the stream has terminated.
#[derive(Debug, PartialEq, Eq)]
pub struct SyncSession {
    pub snapshot: TreeValue,
    pub terminated: bool,
}

impl SyncSession {
    /// The snapshot is a well-formed tree.
    pub open spec fn wf(self) -> bool {
        swf(self.snapshot@)
    }

    /// Seed a session from the first frame's JSON payload. Fails — and no
    /// session starts — exactly when the payload does not decode as a JSON
    /// object carrying a "data" member.
    pub fn seed(first_payload: &Vec<u8>) -> (r: Result<SyncSession, SyncFault>)
        ensures
            r matches Ok(sess) ==> Some(sess.snapshot@) == seed_spec(first_payload@)
                && !sess.terminated && sess.wf(),
            (r is Err) == (seed_spec(first_payload@) is None),
            r matches Err(e) ==> e == SyncFault::MalformedFrame,
    {
        match decode_json(first_payload.as_slice()) {
            None => Err(SyncFault::MalformedFrame),
            Some(tv) => match &tv {
                TreeValue::Obj(es) => {
                    let ghost m = model_entries(es@);
                    let kd = key_data_vec();
                    match obj_get(es, &kd) {
                        None => Err(SyncFault::MalformedFrame),
                        Some(d) => {
                            let snapshot = clone_tree(d);
                            proof {
                                lemma_olookup_some(m, key_data());
                                let w = choose|w: int|
                                    0 <= w < m.len() && (#[trigger] m[w]).0 == key_data() && m[w].1
                                        == olookup(m, key_data())->Some_0;
                                assert(swf(m[w].1));
                            }
                            Ok(SyncSession { snapshot, terminated: false })
                        },
                    }
                },
                _ => Err(SyncFault::MalformedFrame),
            },
        }
    }

    /// Apply one raw block from the stream to the session, as `step_spec`
    /// says: the returned action tells the caller whether to hand the fresh
    /// snapshot to the consumer, to go on silently, or to stop reading.
    pub fn handle_block(&mut self, block: &Vec<u8>) -> (a: StepAction)
        requires
            old(self).wf(),
            !old(self).terminated,
        ensures
            final(self).wf(),
            final(self).snapshot@ == step_spec(old(self).snapshot@, block@).0,
            a@ == step_spec(old(self).snapshot@, block@).1,
            final(self).terminated == (a is Terminated),
    {
        match parse_frame(block) {
            Err(f) => StepAction::Skipped(f),
            Ok(ChangeFrame::Control(k)) => match k {
                FrameKind::KeepAlive => StepAction::Ignored,
                _ => {
                    self.terminated = true;
                    StepAction::Terminated
                },
            },
            Ok(ChangeFrame::Update { kind, path, value }) => {
                let ok = match kind {
                    FrameKind::Put => replace_value(&mut self.snapshot, &path, &value),
                    _ => patch_value(&mut self.snapshot, &path, &value),
                };
                if ok {
                    let t = clone_tree(&self.snapshot);
                    StepAction::Deliver(t)
                } else {
                    StepAction::Skipped(SyncFault::PathNotFound)
                }
            },
        }
    }
}

} // verus!
