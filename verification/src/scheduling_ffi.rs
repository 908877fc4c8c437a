//! The scheduling data model shared with C++ callers.
//!
//! The C ABI structs with raw pointers live at the binding layer; here are the
//! owned values they convert to, and the plain-old-data values that cross the
//! boundary unchanged.

use vstd::prelude::*;

use crate::str_map::{LabelMap, ResourceSet};

verus! {

/// Why a value handed over by a C++ caller could not be read.
#[derive(Debug, PartialEq, Eq)]
pub enum FfiError {
    NullPointer(&'static str),
    InvalidUtf8(&'static str),
}

/// The kind of worker process.
#[derive(Debug, Clone, Copy, PartialEq, Eq)]
pub enum RayletWorkerType {
    Worker,
    Driver,
    SpillWorker,
    RestoreWorker,
}

/// The language a worker runs.
#[derive(Debug, Clone, Copy, PartialEq, Eq)]
pub enum RayletLanguage {
    Python,
    Java,
    Cpp,
    Rust,
}

/// Why a worker lease was returned.
#[derive(Debug, Clone, Copy, PartialEq, Eq)]
pub enum RayletWorkerReleaseReason {
    TaskFinished,
    TaskCanceled,
    Preempted,
    Disconnected,
}

/// How a worker process ended.
#[derive(Debug, Clone, Copy, PartialEq, Eq)]
pub enum RayletWorkerExitType {
    Intended,
    SystemError,
    UserError,
    NodeShutdown,
}

/// The operator of a label constraint as it crosses the C boundary.
#[derive(Debug, Clone, Copy, PartialEq, Eq)]
pub enum RayletLabelSelectorOp {
    Unspecified,
    In,
    NotIn,
}

/// How a label constraint compares a node's label with its values.
#[derive(Debug, Clone, Copy, PartialEq, Eq, Structural)]
pub enum LabelSelectorOperator {
    Unspecified,
    In,
    NotIn,
}

impl RayletLabelSelectorOp {
    /// The operator with the same meaning.
    pub fn to_rust(self) -> (op: LabelSelectorOperator)
        ensures
            op == match self {
                RayletLabelSelectorOp::Unspecified => LabelSelectorOperator::Unspecified,
                RayletLabelSelectorOp::In => LabelSelectorOperator::In,
                RayletLabelSelectorOp::NotIn => LabelSelectorOperator::NotIn,
            },
    {
        match self {
            RayletLabelSelectorOp::Unspecified => LabelSelectorOperator::Unspecified,
            RayletLabelSelectorOp::In => LabelSelectorOperator::In,
            RayletLabelSelectorOp::NotIn => LabelSelectorOperator::NotIn,
        }
    }
}

/// A requirement on one node label.
pub struct LabelConstraint {
    pub key: String,
    pub op: LabelSelectorOperator,
    pub values: Vec<String>,
}

/// The abstract value of a label constraint.
pub struct LabelConstraintModel {
    pub key: Seq<char>,
    pub op: LabelSelectorOperator,
    pub values: Seq<Seq<char>>,
}

impl View for LabelConstraint {
    type V = LabelConstraintModel;

    open spec fn view(&self) -> LabelConstraintModel {
        LabelConstraintModel {
            key: self.key@,
            op: self.op,
            values: self.values@.map_values(|v: String| v@),
        }
    }
}

/// All label constraints that a node must meet.
pub struct LabelSelector {
    pub constraints: Vec<LabelConstraint>,
}

impl View for LabelSelector {
    type V = Seq<LabelConstraintModel>;

    open spec fn view(&self) -> Seq<LabelConstraintModel> {
        self.constraints@.map_values(|c: LabelConstraint| c@)
    }
}

/// The resources and placement constraints of one request.
pub struct ResourceRequest {
    pub resources: ResourceSet,
    pub requires_object_store_memory: bool,
    pub label_selector: LabelSelector,
}

/// The abstract value of a resource request.
pub struct ResourceRequestModel {
    pub resources: Map<Seq<char>, i64>,
    pub requires_object_store_memory: bool,
    pub label_selector: Seq<LabelConstraintModel>,
}

impl View for ResourceRequest {
    type V = ResourceRequestModel;

    open spec fn view(&self) -> ResourceRequestModel {
        ResourceRequestModel {
            resources: self.resources@,
            requires_object_store_memory: self.requires_object_store_memory,
            label_selector: self.label_selector@,
        }
    }
}

/// What a node reports about its resources.
pub struct NodeResources {
    pub total: ResourceSet,
    pub available: ResourceSet,
    pub load: ResourceSet,
    pub normal_task_resources: ResourceSet,
    pub labels: LabelMap,
    pub idle_resource_duration_ms: i64,
    pub is_draining: bool,
    pub draining_deadline_timestamp_ms: i64,
    pub last_resource_update_ms: i64,
    pub latest_resources_normal_task_timestamp: i64,
    pub object_pulls_queued: bool,
}

/// The abstract value of a node's resource report.
pub struct NodeResourcesModel {
    pub total: Map<Seq<char>, i64>,
    pub available: Map<Seq<char>, i64>,
    pub load: Map<Seq<char>, i64>,
    pub normal_task_resources: Map<Seq<char>, i64>,
    pub labels: Map<Seq<char>, Seq<char>>,
    pub idle_resource_duration_ms: i64,
    pub is_draining: bool,
    pub draining_deadline_timestamp_ms: i64,
    pub last_resource_update_ms: i64,
    pub latest_resources_normal_task_timestamp: i64,
    pub object_pulls_queued: bool,
}

impl View for NodeResources {
    type V = NodeResourcesModel;

    open spec fn view(&self) -> NodeResourcesModel {
        NodeResourcesModel {
            total: self.total@,
            available: self.available@,
            load: self.load@,
            normal_task_resources: self.normal_task_resources@,
            labels: self.labels@,
            idle_resource_duration_ms: self.idle_resource_duration_ms,
            is_draining: self.is_draining,
            draining_deadline_timestamp_ms: self.draining_deadline_timestamp_ms,
            last_resource_update_ms: self.last_resource_update_ms,
            latest_resources_normal_task_timestamp: self.latest_resources_normal_task_timestamp,
            object_pulls_queued: self.object_pulls_queued,
        }
    }
}

impl NodeResources {
    /// A copy of the report.
    pub fn duplicate(&self) -> (r: Self)
        ensures
            r@ == self@,
    {
        NodeResources {
            total: self.total.duplicate(),
            available: self.available.duplicate(),
            load: self.load.duplicate(),
            normal_task_resources: self.normal_task_resources.duplicate(),
            labels: self.labels.duplicate(),
            idle_resource_duration_ms: self.idle_resource_duration_ms,
            is_draining: self.is_draining,
            draining_deadline_timestamp_ms: self.draining_deadline_timestamp_ms,
            last_resource_update_ms: self.last_resource_update_ms,
            latest_resources_normal_task_timestamp: self.latest_resources_normal_task_timestamp,
            object_pulls_queued: self.object_pulls_queued,
        }
    }
}

/// A node's resource report together with the node's id.
pub struct NodeResourceView {
    pub node_id: i64,
    pub resources: NodeResources,
}

/// The abstract value of a node's resource snapshot.
pub struct NodeResourceViewModel {
    pub node_id: i64,
    pub resources: NodeResourcesModel,
}

impl View for NodeResourceView {
    type V = NodeResourceViewModel;

    open spec fn view(&self) -> NodeResourceViewModel {
        NodeResourceViewModel { node_id: self.node_id, resources: self.resources@ }
    }
}

/// A request to place work on some node.
pub struct SchedulingRequest {
    pub request_id: i64,
    pub preferred_node_id: i64,
    pub resource_request: ResourceRequest,
}

/// The abstract value of a scheduling request.
pub struct SchedulingRequestModel {
    pub request_id: i64,
    pub preferred_node_id: i64,
    pub resource_request: ResourceRequestModel,
}

impl View for SchedulingRequest {
    type V = SchedulingRequestModel;

    open spec fn view(&self) -> SchedulingRequestModel {
        SchedulingRequestModel {
            request_id: self.request_id,
            preferred_node_id: self.preferred_node_id,
            resource_request: self.resource_request@,
        }
    }
}

/// Where a request goes, or that it cannot run anywhere.
#[derive(Debug, Clone, Copy, PartialEq, Eq, Structural)]
pub struct SchedulingDecision {
    pub request_id: i64,
    pub selected_node_id: i64,
    pub is_feasible: bool,
    pub is_spillback: bool,
}

/// A scheduling decision as it crosses the C boundary, flags as bytes.
#[derive(Debug, Clone, Copy, PartialEq, Eq, Structural)]
pub struct RayletSchedulingDecision {
    pub request_id: i64,
    pub selected_node_id: i64,
    pub is_feasible: u8,
    pub is_spillback: u8,
}

impl RayletSchedulingDecision {
    /// The decision with each flag true exactly where its byte is nonzero.
    pub fn to_rust(&self) -> (d: SchedulingDecision)
        ensures
            d.request_id == self.request_id,
            d.selected_node_id == self.selected_node_id,
            d.is_feasible == (self.is_feasible != 0),
            d.is_spillback == (self.is_spillback != 0),
    {
        SchedulingDecision {
            request_id: self.request_id,
            selected_node_id: self.selected_node_id,
            is_feasible: self.is_feasible != 0,
            is_spillback: self.is_spillback != 0,
        }
    }
}

/// The decision that the C boundary's round-trip probe reports for a request:
/// the preferred node, feasible, no spillback.
pub fn roundtrip_decision(request_id: i64, preferred_node_id: i64) -> (d: RayletSchedulingDecision)
    ensures
        d == (RayletSchedulingDecision {
            request_id,
            selected_node_id: preferred_node_id,
            is_feasible: 1,
            is_spillback: 0,
        }),
{
    RayletSchedulingDecision {
        request_id,
        selected_node_id: preferred_node_id,
        is_feasible: 1,
        is_spillback: 0,
    }
}

} // verus!
