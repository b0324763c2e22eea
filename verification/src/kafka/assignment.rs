use std::collections::VecDeque;
use vstd::prelude::*;
use super::laws::fresh;
use super::reader::{slots_of, PartitionState, Slot};
use super::service::{wants_newest, EngineError, Kafka};
use super::types::KafkaConfig;
use crate::text::{decimal_i32, i32_parse_error_text, owned, parse_i32, same_text};

verus! {

/// Number of offsets read back from the high watermark when a plan starts from the newest
/// records.
pub const BACK_WINDOW: i64 = 2000;

/// The partitions that the settings select.
#[derive(Debug, Clone, Copy)]
pub enum PartitionSelection {
    /// Every partition of the topic.
    All,
    /// The partition with this id.
    Single(i32),
}

/// Smallest available offset and one past the largest produced offset of a partition, as
/// the source reports them when the plan is made.
#[derive(Debug, Clone, Copy)]
pub struct Watermarks {
    pub partition: i32,
    pub low: i64,
    pub high: i64,
}

/// Where the source is to begin reading a partition.
#[derive(Debug, Clone, Copy)]
pub enum StartOffset {
    /// At the earliest record that the source still has.
    Beginning,
    /// At this offset.
    Offset(i64),
}

/// One partition to assign to the source.
#[derive(Debug, Clone, Copy)]
pub struct Assignment {
    pub partition: i32,
    pub offset: StartOffset,
}

/// The selection that a partition setting denotes: every partition when it is absent, empty
/// or `all`, one partition when it is a decimal number, and none otherwise.
pub open spec fn selection_of(partition: Option<String>) -> Option<PartitionSelection> {
    match partition {
        None => Some(PartitionSelection::All),
        Some(s) => if s@.len() == 0 || s@ == "all"@ {
            Some(PartitionSelection::All)
        } else {
            match decimal_i32(s@) {
                Some(n) => Some(PartitionSelection::Single(n)),
                None => None,
            }
        },
    }
}

/// What the reader says of a partition setting that is no number.
pub open spec fn invalid_partition_text(s: Seq<char>) -> Seq<char> {
    "Invalid partition id '"@ + s + "': "@ + i32_parse_error_text(s)
}

/// The larger of two offsets.
pub open spec fn max_offset(a: int, b: int) -> int {
    if a >= b {
        a
    } else {
        b
    }
}

/// First offset of a partition's window: for the newest records, the back window before
/// the high watermark, but not before the low one; for one selected partition with a
/// requested offset, that offset, but not before the low watermark; else the low watermark.
pub open spec fn planned_start(
    newest: bool,
    selection: PartitionSelection,
    requested: Option<i64>,
    w: Watermarks,
) -> int {
    if newest {
        max_offset(w.low as int, w.high - BACK_WINDOW)
    } else if selection is All {
        w.low as int
    } else {
        match requested {
            Some(req) => max_offset(w.low as int, req as int),
            None => w.low as int,
        }
    }
}

/// Where the source begins a partition: at the planned offset where the plan computes one,
/// at the beginning where the window starts with the earliest record.
pub open spec fn planned_offset(
    newest: bool,
    selection: PartitionSelection,
    requested: Option<i64>,
    w: Watermarks,
) -> StartOffset {
    if newest || (selection is Single && requested is Some) {
        StartOffset::Offset(planned_start(newest, selection, requested, w) as i64)
    } else {
        StartOffset::Beginning
    }
}

/// The slot that the plan gives a partition: its window, nothing buffered, not done.
pub open spec fn planned_slot(
    newest: bool,
    selection: PartitionSelection,
    requested: Option<i64>,
    w: Watermarks,
) -> Slot {
    Slot {
        partition: w.partition,
        start: planned_start(newest, selection, requested, w) as i64,
        end: w.high,
        done: false,
        buffer: Seq::empty(),
    }
}

/// No partition is listed twice.
pub open spec fn distinct_partitions(marks: Seq<Watermarks>) -> bool {
    forall|i: int, j: int|
        0 <= i < j < marks.len() ==> (#[trigger] marks[i]).partition != (
        #[trigger] marks[j]).partition
}

/// The watermarks are those of the selected partitions: of the one partition where one is
/// selected, and of no partition twice.
pub open spec fn marks_fit(selection: PartitionSelection, marks: Seq<Watermarks>) -> bool {
    &&& distinct_partitions(marks)
    &&& match selection {
        PartitionSelection::All => true,
        PartitionSelection::Single(n) => marks.len() == 1 && marks[0].partition == n,
    }
}

/// Computes the first offset of a partition's window.
pub fn start_of(
    newest: bool,
    selection: PartitionSelection,
    requested: Option<i64>,
    w: Watermarks,
) -> (start: i64)
    ensures
        start == planned_start(newest, selection, requested, w),
{
    if newest {
        if w.high >= i64::MIN + BACK_WINDOW && w.high - BACK_WINDOW > w.low {
            w.high - BACK_WINDOW
        } else {
            w.low
        }
    } else {
        match (selection, requested) {
            (PartitionSelection::Single(_), Some(req)) => if req < w.low {
                w.low
            } else {
                req
            },
            _ => w.low,
        }
    }
}

/// Whether no partition is listed twice.
pub fn partitions_distinct(marks: &Vec<Watermarks>) -> (r: bool)
    ensures
        r == distinct_partitions(marks@),
{
    let mut j: usize = 0;
    while j < marks.len()
        invariant
            j <= marks.len(),
            forall|a: int, b: int|
                0 <= a < b < j ==> (#[trigger] marks@[a]).partition != (
                #[trigger] marks@[b]).partition,
        decreases marks.len() - j,
    {
        let mut i: usize = 0;
        while i < j
            invariant
                i <= j,
                j < marks.len(),
                forall|a: int| 0 <= a < i ==> (#[trigger] marks@[a]).partition != marks@[j as int].partition,
            decreases j - i,
        {
            if marks[i].partition == marks[j].partition {
                return false;
            }
            i += 1;
        }
        j += 1;
    }
    true
}

/// The error for a topic that the source's metadata does not list.
pub fn topic_not_found() -> (e: EngineError)
    ensures
        e is Metadata,
        e.text() == "Topic not found in metadata"@,
{
    EngineError::Metadata(owned("Topic not found in metadata"))
}

impl Kafka {
    /// The partitions that the settings select, or a configuration error when the setting
    /// is neither empty, `all` nor a decimal number.
    pub fn partition_selection(&self) -> (r: Result<PartitionSelection, EngineError>)
        ensures
            match r {
                Ok(sel) => selection_of(self.config.partition) == Some(sel),
                Err(e) => selection_of(self.config.partition) is None && e is Config && e.text()
                    == invalid_partition_text(self.config.partition->0@),
            },
    {
        match &self.config.partition {
            None => Ok(PartitionSelection::All),
            Some(s) => {
                if s.as_str().unicode_len() == 0 || same_text(s.as_str(), "all") {
                    Ok(PartitionSelection::All)
                } else {
                    match parse_i32(s.as_str()) {
                        Ok(n) => Ok(PartitionSelection::Single(n)),
                        Err(why) => {
                            let mut text = owned("Invalid partition id '");
                            text.append(s.as_str());
                            text.append("': ");
                            text.append(why.as_str());
                            Err(EngineError::Config(text))
                        },
                    }
                }
            },
        }
    }

    /// Applies a new partition, offset and direction and drops the plan: buffers, done
    /// marks and the batch in progress are discarded, and the next batch needs a new plan.
    /// The direction stays as it was when none is given.
    pub fn apply_filters_mut(
        &mut self,
        partition: Option<String>,
        start_offset: Option<i64>,
        start_from: Option<String>,
    )
        ensures
            final(self).config == (KafkaConfig {
                partition,
                start_offset,
                start_from: if start_from is Some {
                    start_from
                } else {
                    old(self).config.start_from
                },
                ..old(self).config
            }),
            final(self).proto_decoder == old(self).proto_decoder,
            !final(self).assigned,
            final(self).partitions@.len() == 0,
            final(self).batch is None,
            fresh(final(self)@),
    {
        self.config.partition = partition;
        self.config.start_offset = start_offset;
        match start_from {
            Some(s) => {
                self.config.start_from = Some(s);
            },
            None => {},
        }
        self.assigned = false;
        self.partitions = Vec::new();
        self.batch = None;
    }

    /// Installs the plan for the selected partitions, whose watermarks the driver has
    /// fetched, and says where the source is to begin each of them.
    ///
    /// With a plan already installed nothing changes and the answer is `None`. The end of
    /// each window is the high watermark given here; it stays until the filters change.
    pub fn ensure_assigned(&mut self, marks: &Vec<Watermarks>) -> (r: Result<
        Option<Vec<Assignment>>,
        EngineError,
    >)
        ensures
            final(self).config == old(self).config,
            final(self).proto_decoder == old(self).proto_decoder,
            old(self).assigned ==> r == Ok::<Option<Vec<Assignment>>, EngineError>(None)
                && *final(self) == *old(self),
            !old(self).assigned ==> match selection_of(old(self).config.partition) {
                None => *final(self) == *old(self) && r is Err && r->Err_0 is Config && r->Err_0.text()
                    == invalid_partition_text(old(self).config.partition->0@),
                Some(sel) => if marks_fit(sel, marks@) {
                    let newest = wants_newest(old(self).config.start_from);
                    let req = old(self).config.start_offset;
                    &&& final(self).assigned
                    &&& final(self).batch is None
                    &&& fresh(final(self)@)
                    &&& final(self)@.slots == marks@.map_values(
                        |w: Watermarks| planned_slot(newest, sel, req, w),
                    )
                    &&& r is Ok && r->Ok_0 is Some
                    &&& r->Ok_0->0@.len() == marks@.len()
                    &&& forall|i: int|
                        0 <= i < marks@.len() ==> (#[trigger] r->Ok_0->0@[i]).partition
                            == marks@[i].partition && r->Ok_0->0@[i].offset == planned_offset(
                            newest,
                            sel,
                            req,
                            marks@[i],
                        )
                } else {
                    *final(self) == *old(self) && r is Err && r->Err_0 is Internal
                        && r->Err_0.text() == "watermarks do not match the selected partitions"@
                },
            },
    {
        if self.assigned {
            return Ok(None);
        }
        let selection = match self.partition_selection() {
            Ok(s) => s,
            Err(e) => {
                return Err(e);
            },
        };
        let fits: bool = partitions_distinct(marks) && match selection {
            PartitionSelection::All => true,
            PartitionSelection::Single(n) => marks.len() == 1 && marks[0].partition == n,
        };
        if !fits {
            return Err(
                EngineError::Internal(owned("watermarks do not match the selected partitions")),
            );
        }
        let newest: bool = self.reads_newest();
        let requested = self.config.start_offset;
        let mut parts: Vec<PartitionState> = Vec::new();
        let mut plan: Vec<Assignment> = Vec::new();
        let mut i: usize = 0;
        while i < marks.len()
            invariant
                i <= marks.len(),
                parts@.len() == i,
                plan@.len() == i,
                forall|k: int|
                    0 <= k < i ==> (#[trigger] parts@[k])@ == planned_slot(
                        newest,
                        selection,
                        requested,
                        marks@[k],
                    ),
                forall|k: int|
                    0 <= k < i ==> (#[trigger] plan@[k]).partition == marks@[k].partition
                        && plan@[k].offset == planned_offset(newest, selection, requested, marks@[k]),
            decreases marks.len() - i,
        {
            let w = marks[i];
            let start = start_of(newest, selection, requested, w);
            let computed: bool = newest || match (selection, requested) {
                (PartitionSelection::Single(_), Some(_)) => true,
                _ => false,
            };
            let offset = if computed {
                StartOffset::Offset(start)
            } else {
                StartOffset::Beginning
            };
            parts.push(
                PartitionState {
                    partition: w.partition,
                    start,
                    end: w.high,
                    done: false,
                    buffer: VecDeque::new(),
                },
            );
            plan.push(Assignment { partition: w.partition, offset });
            i += 1;
        }
        assert(slots_of(parts@) =~= marks@.map_values(
            |w: Watermarks| planned_slot(newest, selection, requested, w),
        ));
        self.partitions = parts;
        self.batch = None;
        self.assigned = true;
        proof {
            let slots = self@.slots;
            assert forall|a: int, b: int| 0 <= a < b < slots.len() implies (
            #[trigger] slots[a]).partition != (#[trigger] slots[b]).partition by {
                assert(marks@[a].partition != marks@[b].partition);
            }
        }
        Ok(Some(plan))
    }
}

} // verus!
