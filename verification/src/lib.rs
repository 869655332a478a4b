pub mod cell;
pub mod codec;
pub mod numbers;
pub mod paths;
pub mod record;
pub mod retrieve;
pub mod text;
pub mod wiki;

use crate::codec::encode_spec;
use crate::record::{Information, InformationView};
use crate::wiki::{has_tag, recall_spec, record_path_spec, Wiki};
use vstd::prelude::*;

verus! {

/// Errors surfaced by the store.
#[derive(Debug, PartialEq, Eq, Structural)]
pub enum StoreError {
    /// The backing file could not be created, opened, or written.
    IoError,
    /// On-disk content does not deserialize to a record.
    DeserializeError,
    /// No store context has been selected.
    NotFound,
}

pub fn error_message(e: &StoreError) -> (r: &'static str)
    ensures
        r@ == match e {
            StoreError::IoError => "io error"@,
            StoreError::DeserializeError => "malformed record file"@,
            StoreError::NotFound => "No wiki context selected. Use switch() first."@,
        },
{
    match e {
        StoreError::IoError => "io error",
        StoreError::DeserializeError => "malformed record file",
        StoreError::NotFound => "No wiki context selected. Use switch() first.",
    }
}

/// The state the command layer threads through its calls: whether the
/// global directory is in use, and the store selected by `switch`.
pub struct Context {
    pub use_global: bool,
    pub current: Option<Wiki>,
}

impl Context {
    /// The selected store, if any, can be read: no exclusive session open.
    pub open spec fn wf(self) -> bool {
        match self.current {
            Some(w) => w.quiescent(),
            None => true,
        }
    }

    /// A context with no store selected and the local directory in use.
    pub fn new() -> (c: Context)
        ensures
            c.current is None,
            !c.use_global,
            c.wf(),
    {
        Context { use_global: false, current: None }
    }
}

/// Sets whether store directories resolve under the global data directory.
pub fn set_use_global(ctx: &mut Context, use_global: bool)
    ensures
        final(ctx).use_global == use_global,
        final(ctx).current == old(ctx).current,
{
    ctx.use_global = use_global;
}

/// Whether store directories resolve under the global data directory.
pub fn is_using_global(ctx: &Context) -> (r: bool)
    ensures
        r == ctx.use_global,
{
    ctx.use_global
}

/// Installs a store (loaded or created by the caller) as the current one.
/// Never fails.
pub fn switch(ctx: &mut Context, wiki: Wiki) -> (r: Result<(), StoreError>)
    ensures
        r is Ok,
        final(ctx).current == Some(wiki),
        final(ctx).use_global == old(ctx).use_global,
{
    ctx.current = Some(wiki);
    Ok(())
}

/// Commits a fact to the current store: appends a fresh record whose title
/// and body are both `fact`. Returns its new identifier and the persistence
/// job (backing path and full serialized form); fails exactly when no store
/// is selected.
pub fn commit(ctx: &mut Context, fact: String, tags: Vec<String>) -> (r: Result<
    (u128, String, String),
    StoreError,
>)
    ensures
        old(ctx).wf() ==> final(ctx).wf(),
        final(ctx).use_global == old(ctx).use_global,
        match r {
            Ok(out) => old(ctx).current is Some && final(ctx).current is Some && {
                let w0 = old(ctx).current.unwrap();
                let w1 = final(ctx).current.unwrap();
                &&& w1.records() == w0.records().push(
                    InformationView {
                        id: out.0,
                        tags: tags@.map_values(|t: String| t@),
                        name: fact@,
                        data: fact@,
                    },
                )
                &&& w1.name@ == w0.name@
                &&& w1.path@ == w0.path@
                &&& out.1@ == record_path_spec(w0.path@, out.0)
                &&& out.2@ == encode_spec(
                    InformationView {
                        id: out.0,
                        tags: tags@.map_values(|t: String| t@),
                        name: fact@,
                        data: fact@,
                    },
                )
            },
            Err(e) => e == StoreError::NotFound && old(ctx).current is None && *final(ctx)
                == *old(ctx),
        },
{
    let cur = ctx.current.take();
    match cur {
        Some(mut w) => {
            let out = w.commit(fact, tags);
            ctx.current = Some(w);
            Ok(out)
        },
        None => Err(StoreError::NotFound),
    }
}

/// Ranked fuzzy retrieval over the current store; fails exactly when no
/// store is selected.
pub fn recall(ctx: &Context, query: &str, tag_filter: Option<&str>) -> (r: Result<
    Vec<Information>,
    StoreError,
>)
    requires
        ctx.wf(),
    ensures
        match r {
            Ok(v) => ctx.current is Some && v@.map_values(|x: Information| x@) == recall_spec(
                ctx.current.unwrap().records(),
                query@,
                match tag_filter {
                    Some(t) => Some(t@),
                    None => None,
                },
            ),
            Err(e) => e == StoreError::NotFound && ctx.current is None,
        },
{
    match &ctx.current {
        Some(w) => Ok(w.recall(query, tag_filter)),
        None => Err(StoreError::NotFound),
    }
}

/// Every record of the current store whose tag list contains an exact match
/// for `tag`, in collection order; fails exactly when no store is selected.
pub fn recall_by_tag(ctx: &Context, tag: &str) -> (r: Result<Vec<Information>, StoreError>)
    requires
        ctx.wf(),
    ensures
        match r {
            Ok(v) => ctx.current is Some && v@.map_values(|x: Information| x@)
                == ctx.current.unwrap().records().filter(|rv: InformationView| has_tag(rv, tag@)),
            Err(e) => e == StoreError::NotFound && ctx.current is None,
        },
{
    match &ctx.current {
        Some(w) => Ok(w.recall_by_tag(tag)),
        None => Err(StoreError::NotFound),
    }
}

/// The snapshot the static-site generator renders: every record of the
/// current store, in collection order. The rendering and the generator run
/// are outside the store's core; fails exactly when no store is selected.
pub fn book(ctx: &Context) -> (r: Result<Vec<Information>, StoreError>)
    requires
        ctx.wf(),
    ensures
        match r {
            Ok(v) => ctx.current is Some && v@.map_values(|x: Information| x@)
                == ctx.current.unwrap().records(),
            Err(e) => e == StoreError::NotFound && ctx.current is None,
        },
{
    match &ctx.current {
        Some(w) => Ok(w.snapshot()),
        None => Err(StoreError::NotFound),
    }
}

} // verus!
