//! The records that the engine produces and exchanges.
use vstd::prelude::*;

verus! {

/// What drives sampling: a hardware cycle counter or the wall clock.
#[derive(Clone, Copy, Debug, PartialEq, Eq, Structural)]
pub enum EventType {
    Cycles,
    Clock,
}

pub open spec fn event_name(e: EventType) -> Seq<char> {
    match e {
        EventType::Cycles => "Cycles"@,
        EventType::Clock => "Clock"@,
    }
}

impl EventType {
    /// The name under which the event kind is recorded.
    pub fn name(&self) -> (r: String)
        ensures
            r@ == event_name(*self),
    {
        match self {
            EventType::Cycles => "Cycles".to_owned(),
            EventType::Clock => "Clock".to_owned(),
        }
    }
}

/// Capture-side configuration.
#[derive(Clone, Debug)]
pub struct Args {
    pub pid: u32,
    pub total_samples: u32,
    pub event_type: EventType,
    pub sample_freq: u64,
    pub binary: Option<String>,
    pub version: Option<String>,
    pub url: String,
}

/// One raw sample: the process it came from and its instruction addresses,
/// innermost frame first.
#[derive(Clone, Debug)]
pub struct StackInfo {
    pub pid: u32,
    pub ustack: Vec<u64>,
    pub args: Args,
}

/// A deduplicated source-level frame.
#[derive(Clone, Debug, PartialEq, Eq)]
pub struct StackNodeData {
    pub id: u64,
    pub symbol: String,
    pub file: Option<String>,
    pub line_number: Option<u32>,
    pub bin_file: Option<String>,
}


fn copy_opt_string(s: &Option<String>) -> (r: Option<String>)
    ensures
        r == *s,
{
    match s {
        None => None,
        Some(t) => Some(t.clone()),
    }
}

impl StackNodeData {
    /// A field-by-field copy.
    pub fn duplicate(&self) -> (r: StackNodeData)
        ensures
            r == *self,
    {
        StackNodeData {
            id: self.id,
            symbol: self.symbol.clone(),
            file: copy_opt_string(&self.file),
            line_number: self.line_number,
            bin_file: copy_opt_string(&self.bin_file),
        }
    }
}

/// One position of the aggregated call tree.
#[derive(Clone, Copy, Debug, PartialEq, Eq, Structural)]
pub struct StackNode {
    pub id: u64,
    /// `None` only for a root.
    pub parent_id: Option<u64>,
    pub stack_node_data_id: u64,
    pub executable_id: u64,
    /// Samples that passed through this exact path prefix.
    pub sample_count: u64,
    /// Distance from the root: 0 for a root.
    pub depth: u32,
}

/// The record of a profiled executable and its byte-volume accounting.
#[derive(Clone, Debug, PartialEq, Eq)]
pub struct ProfiledBinary {
    pub id: u64,
    pub event: String,
    pub build_id: Option<String>,
    pub basename: String,
    /// Seconds since the Unix epoch.
    pub updated_at: Option<i64>,
    /// Seconds since the Unix epoch.
    pub created_at: Option<i64>,
    pub sample_count: u64,
    pub raw_data_size: u64,
    pub processed_data_size: u64,
}

impl ProfiledBinary {
    /// A field-by-field copy.
    pub fn duplicate(&self) -> (r: ProfiledBinary)
        ensures
            r == *self,
    {
        ProfiledBinary {
            id: self.id,
            event: self.event.clone(),
            build_id: copy_opt_string(&self.build_id),
            basename: self.basename.clone(),
            updated_at: self.updated_at,
            created_at: self.created_at,
            sample_count: self.sample_count,
            raw_data_size: self.raw_data_size,
            processed_data_size: self.processed_data_size,
        }
    }
}

/// One symbolized sample: its event name and its frames, root first.
#[derive(Clone, Debug)]
pub struct StackTrace {
    pub event: String,
    pub stack_node_datas: Vec<StackNodeData>,
}

/// A batch: the three entity collections, as handed to a sink or read back.
#[derive(Clone, Debug)]
pub struct StoData {
    pub stack_nodes: Vec<StackNode>,
    pub stack_node_datas: Vec<StackNodeData>,
    pub profiled_binaries: Vec<ProfiledBinary>,
}

/// One line of the list of profiled executables.
#[derive(Clone, Debug, PartialEq, Eq)]
pub struct TemplateListing {
    pub name: String,
    pub id: u64,
    pub date: String,
}

/// The list of profiled executables.
#[derive(Clone, Debug)]
pub struct TemplateData {
    pub binaries: Vec<TemplateListing>,
}

impl TemplateData {
    /// One line per executable record, in order: its base name, its id and
    /// the date text given for it.
    pub fn from_binaries(binaries: &Vec<ProfiledBinary>, dates: &Vec<String>) -> (r: TemplateData)
        requires
            dates@.len() == binaries@.len(),
        ensures
            r.binaries@.len() == binaries@.len(),
            forall|i: int| 0 <= i < binaries@.len() ==> {
                &&& (#[trigger] r.binaries@[i]).name@ == binaries@[i].basename@
                &&& r.binaries@[i].id == binaries@[i].id
                &&& r.binaries@[i].date@ == dates@[i]@
            },
    {
        let mut out: Vec<TemplateListing> = Vec::new();
        let mut i: usize = 0;
        while i < binaries.len()
            invariant
                dates@.len() == binaries@.len(),
                i <= binaries@.len(),
                out@.len() == i,
                forall|k: int| 0 <= k < i ==> {
                    &&& (#[trigger] out@[k]).name@ == binaries@[k].basename@
                    &&& out@[k].id == binaries@[k].id
                    &&& out@[k].date@ == dates@[k]@
                },
            decreases binaries@.len() - i,
        {
            out.push(TemplateListing { name: binaries[i].basename.clone(), id: binaries[i].id, date: dates[i].clone() });
            i = i + 1;
        }
        TemplateData { binaries: out }
    }
}

} // verus!
