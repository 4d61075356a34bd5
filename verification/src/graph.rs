//! The graph access abstraction: what a storage backend offers to the query
//! layer, whatever engine stands behind it.

use vstd::prelude::*;
use crate::error::GraphProxyError;

verus! {

/// Identifier of a vertex or an edge.
pub type ID = i64;

/// Identifier of a vertex or edge label.
pub type LabelId = i32;

/// Primary key of a vertex: its key properties as pairs of property id and
/// value.
pub type PKV = Vec<(i32, i64)>;

/// What every graph operation returns.
pub type GraphProxyResult<T> = Result<T, GraphProxyError>;

/// Which edges of a vertex a traversal follows.
#[derive(Clone, Copy, Debug, PartialEq, Eq, Structural)]
pub enum Direction {
    /// Edges that leave the vertex.
    Out,
    /// Edges that arrive at the vertex.
    In,
    /// Both of them.
    Both,
}

/// Filters of a scan, a lookup or a traversal.
#[derive(Clone, Debug, PartialEq, Eq)]
pub struct QueryParams {
    /// Labels to keep; empty keeps every label.
    pub labels: Vec<LabelId>,
    /// Upper bound on the number of results, if any.
    pub limit: Option<usize>,
    /// Partitions to read; `None` reads every partition that the process owns.
    pub partitions: Option<Vec<u32>>,
}

/// A vertex as the query layer sees it.
#[derive(Clone, Copy, Debug, PartialEq, Eq, Structural)]
pub struct Vertex {
    pub id: ID,
    pub label: Option<LabelId>,
}

/// An edge as the query layer sees it.
#[derive(Clone, Copy, Debug, PartialEq, Eq, Structural)]
pub struct Edge {
    pub id: ID,
    pub src_id: ID,
    pub dst_id: ID,
    pub label: Option<LabelId>,
}

/// A prepared traversal: planned once for a direction and a set of filters,
/// then run from as many starting points as the caller likes. It keeps no
/// state between runs, so several threads may run it at once.
pub trait Statement<I, O>: Send + 'static {
    /// The statement can be run from `start`.
    spec fn accepts(&self, start: I) -> bool;

    /// Running the statement from `start` may give `out`.
    spec fn yields(&self, start: I, out: GraphProxyResult<Vec<O>>) -> bool;

    /// Runs the statement from `next` and returns what is adjacent to it.
    fn exec(&self, next: I) -> (r: GraphProxyResult<Vec<O>>)
        requires
            self.accepts(next),
        ensures
            self.yields(next, r),
    ;
}

/// Every function from a starting point to a result is a statement: it
/// accepts what the function accepts and yields what the function returns.
impl<I, O, F: 'static> Statement<I, O> for F where
    F: Fn(I) -> GraphProxyResult<Vec<O>> + Send + Sync,
{
    open spec fn accepts(&self, start: I) -> bool {
        call_requires(*self, (start,))
    }

    open spec fn yields(&self, start: I, out: GraphProxyResult<Vec<O>>) -> bool {
        call_ensures(*self, (start,), out)
    }

    fn exec(&self, param: I) -> (r: GraphProxyResult<Vec<O>>) {
        (self)(param)
    }
}

/// Boxes a function as a statement. The box holds the function unchanged, so
/// running the statement is calling the function.
pub fn from_fn<I, O, F>(func: F) -> (r: Box<F>) where
    F: Fn(I) -> GraphProxyResult<Vec<O>> + Send + Sync + 'static,

    ensures
        *r == func,
        forall|start: I| r.accepts(start) == call_requires(func, (start,)),
        forall|start: I, out: GraphProxyResult<Vec<O>>|
            r.yields(start, out) == call_ensures(func, (start,), out),
{
    Box::new(func)
}

/// Reading vertices, edges and their keys from the partitions that the
/// calling process owns.
pub trait ReadGraph: Send + Sync {
    /// All vertices that pass `params`. A fresh call scans from the beginning.
    fn scan_vertex(&self, params: &QueryParams) -> GraphProxyResult<Vec<Vertex>>;

    /// The vertex with the given label and primary key, if there is one. That
    /// none is found is no error.
    fn index_scan_vertex(
        &self,
        label: LabelId,
        primary_key: &PKV,
        params: &QueryParams,
    ) -> GraphProxyResult<Option<Vertex>>;

    /// All edges that pass `params`. A fresh call scans from the beginning.
    fn scan_edge(&self, params: &QueryParams) -> GraphProxyResult<Vec<Edge>>;

    /// The vertices with the given identifiers, as far as they exist, in any
    /// order.
    fn get_vertex(&self, ids: &[ID], params: &QueryParams) -> (r: GraphProxyResult<Vec<Vertex>>)
        ensures
            r matches Ok(found) ==> forall|i: int|
                0 <= i < found@.len() ==> ids@.contains(#[trigger] found@[i].id),
    ;

    /// The edges with the given identifiers, as far as they exist, in any
    /// order.
    fn get_edge(&self, ids: &[ID], params: &QueryParams) -> (r: GraphProxyResult<Vec<Edge>>)
        ensures
            r matches Ok(found) ==> forall|i: int|
                0 <= i < found@.len() ==> ids@.contains(#[trigger] found@[i].id),
    ;

    /// Plans a traversal to the neighbours of a vertex in the given direction.
    /// The statement can then be run from any vertex.
    fn prepare_explore_vertex(&self, direction: Direction, params: &QueryParams) -> (r:
        GraphProxyResult<Box<dyn Statement<ID, Vertex>>>)
        ensures
            r matches Ok(statement) ==> forall|start: ID| statement.accepts(start),
    ;

    /// Plans a traversal to the edges of a vertex in the given direction. The
    /// statement can then be run from any vertex.
    fn prepare_explore_edge(&self, direction: Direction, params: &QueryParams) -> (r:
        GraphProxyResult<Box<dyn Statement<ID, Edge>>>)
        ensures
            r matches Ok(statement) ==> forall|start: ID| statement.accepts(start),
    ;

    /// The number of vertices that pass `params`, counted over the partitions
    /// of this process alone.
    fn count_vertex(&self, params: &QueryParams) -> GraphProxyResult<u64>;

    /// The number of edges that pass `params`, counted over the partitions of
    /// this process alone.
    fn count_edge(&self, params: &QueryParams) -> GraphProxyResult<u64>;

    /// The primary key of the vertex with the given identifier, if it has one.
    fn get_primary_key(&self, id: &ID) -> GraphProxyResult<Option<PKV>>;
}

} // verus!
