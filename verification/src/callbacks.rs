//! The state that the compiler callbacks keep, and what they decide after
//! analysis.
use vstd::prelude::*;
use crate::builder::{build_graph_ir, graph_matches, millis_stamp};
use crate::collect::{MirLineRecord, record_views};
use crate::ir::GraphIr;
use crate::settings::AnalysisConfig;

verus! {

broadcast use vstd::string::group_string_axioms;

/// The compiler callbacks' state: the name of the input being compiled and
/// the analysis settings.
pub struct MirPublicCallbacks {
    file_name: String,
    config: AnalysisConfig,
}

/// The view of [`MirPublicCallbacks`].
pub struct CallbacksView {
    pub file_name: Seq<char>,
    pub output_path: Seq<char>,
    pub depth_k: u32,
}

impl View for MirPublicCallbacks {
    type V = CallbacksView;

    closed spec fn view(&self) -> CallbacksView {
        CallbacksView {
            file_name: self.file_name@,
            output_path: self.config.output_path@,
            depth_k: self.config.depth_k,
        }
    }
}

impl MirPublicCallbacks {
    /// Callbacks with the given settings, before any input is known.
    pub fn new(config: AnalysisConfig) -> (r: Self)
        ensures
            r@ == (CallbacksView {
                file_name: Seq::empty(),
                output_path: config.output_path@,
                depth_k: config.depth_k,
            }),
    {
        Self { file_name: String::new(), config }
    }

    /// Records the name of the input being compiled.
    pub fn set_file_name(&mut self, name: String)
        ensures
            final(self)@ == (CallbacksView { file_name: name@, ..old(self)@ }),
    {
        self.file_name = name;
    }

    /// The name of the input being compiled.
    pub fn file_name(&self) -> (r: &str)
        ensures
            r@ == self@.file_name,
    {
        self.file_name.as_str()
    }

    /// Where the graph is written.
    pub fn output_path(&self) -> (r: &str)
        ensures
            r@ == self@.output_path,
    {
        self.config.output_path.as_str()
    }

    /// The depth parameter recorded in the graph.
    pub fn depth_k(&self) -> (r: u32)
        ensures
            r == self@.depth_k,
    {
        self.config.depth_k
    }

    /// What follows the analysis: nothing when no record was collected, else
    /// the graph of the records for the input, with `crate_entry` as its
    /// entry function.
    pub fn analyze(&self, records: Vec<MirLineRecord>, rustc_version: String) -> (r: Option<GraphIr>)
        requires
            records@.len() < u32::MAX,
        ensures
            r is None <==> records@.len() == 0,
            r matches Some(g) ==> graph_matches(
                g,
                record_views(records@),
                self@.file_name,
                "crate_entry"@,
                self@.depth_k,
                rustc_version@,
            ),
            r matches Some(g) ==> exists|since_epoch_ms: Option<u128>| g.trace.generated_at@ == millis_stamp(
                since_epoch_ms,
            ),
    {
        if records.len() == 0 {
            return None;
        }
        Some(
            build_graph_ir(
                records,
                self.file_name.clone(),
                "crate_entry".to_string(),
                self.config.depth_k,
                rustc_version,
            ),
        )
    }
}

} // verus!
