//! Dialect dispatch: the op-name -> handler table and the parallel
//! op-name -> latency-category table. Each dialect module registers its ops
//! through [`Dispatch::register`]; [`Dispatch::new`] assembles them.

pub mod arith;
pub mod func;
pub mod scf;
pub mod linalg;

use vstd::prelude::*;
use crate::keyed::{keys_unique, entries_map, lemma_index_of, lemma_update_value, lemma_push_fresh, lemma_empty, find_key};
use crate::text::str_to_chars;

pub use crate::latency::LatencyCategory;

verus! {

/// The op handlers this interpreter knows.
#[derive(Clone, Copy, Debug, PartialEq, Eq, Structural)]
pub enum Handler {
    ArithConstant,
    ArithAddf,
    ArithMulf,
    ArithAddi,
    FuncReturn,
    ScfFor,
    ScfIf,
    ScfYield,
    LinalgMatmul,
    LinalgBatchMatmul,
    LinalgGeneric,
    LinalgReduce,
    LinalgTranspose,
    LinalgBroadcast,
    LinalgFill,
    LinalgIndex,
    LinalgYield,
}

/// Op-name -> handler table, plus the latency-category table kept in
/// lockstep with it.
pub struct Dispatch {
    pub handlers: Vec<(Vec<char>, Handler)>,
    pub latency: Vec<(Vec<char>, LatencyCategory)>,
}

impl Dispatch {
    /// Registered handlers by op name.
    pub open spec fn handler_map(&self) -> Map<Seq<char>, Handler> {
        entries_map(self.handlers@)
    }

    /// Registered latency categories by op name.
    pub open spec fn latency_map(&self) -> Map<Seq<char>, LatencyCategory> {
        entries_map(self.latency@)
    }

    /// Each table names an op at most once.
    pub open spec fn wf(&self) -> bool {
        keys_unique(self.handlers@) && keys_unique(self.latency@)
    }

    /// An empty table.
    pub fn empty() -> (d: Dispatch)
        ensures
            d.wf(),
            d.handler_map() == Map::<Seq<char>, Handler>::empty(),
            d.latency_map() == Map::<Seq<char>, LatencyCategory>::empty(),
    {
        let d = Dispatch { handlers: Vec::new(), latency: Vec::new() };
        proof {
            lemma_empty(d.handlers@);
            lemma_empty(d.latency@);
        }
        d
    }

    /// The table with every dialect's ops registered.
    pub fn new() -> (d: Dispatch)
        ensures
            d.wf(),
            d.handler_map() == builtin_handlers(),
            d.latency_map() == builtin_latency(),
    {
        let mut d = Dispatch::empty();
        arith::register(&mut d);
        func::register(&mut d);
        scf::register(&mut d);
        linalg::register(&mut d);
        proof {
            reveal_strlit("arith.constant");
            reveal_strlit("arith.addf");
            reveal_strlit("arith.mulf");
            reveal_strlit("arith.addi");
            reveal_strlit("return");
            reveal_strlit("func.return");
            reveal_strlit("scf.for");
            reveal_strlit("scf.if");
            reveal_strlit("scf.yield");
            reveal_strlit("linalg.matmul");
            reveal_strlit("linalg.batch_matmul");
            reveal_strlit("linalg.generic");
            reveal_strlit("linalg.reduce");
            reveal_strlit("linalg.transpose");
            reveal_strlit("linalg.broadcast");
            reveal_strlit("linalg.fill");
            reveal_strlit("linalg.index");
            reveal_strlit("linalg.yield");
            assert(d.handler_map() =~= builtin_handlers());
            assert(d.latency_map() =~= builtin_latency());
        }
        d
    }

    /// Register `f` as the handler of `op_name`, with latency category `cat`
    /// (replacing an earlier registration of that name).
    pub fn register(&mut self, op_name: &str, cat: LatencyCategory, f: Handler)
        requires
            old(self).wf(),
        ensures
            final(self).wf(),
            final(self).handler_map() == old(self).handler_map().insert(op_name@, f),
            final(self).latency_map() == old(self).latency_map().insert(op_name@, cat),
    {
        let k = str_to_chars(op_name);
        let k2 = str_to_chars(op_name);
        match find_key(&self.handlers, &k) {
            Some(i) => {
                proof {
                    lemma_update_value(self.handlers@, i as int, (k, f));
                }
                self.handlers.set(i, (k, f));
            },
            None => {
                proof {
                    lemma_push_fresh(self.handlers@, (k, f));
                }
                self.handlers.push((k, f));
            },
        }
        match find_key(&self.latency, &k2) {
            Some(i) => {
                proof {
                    lemma_update_value(self.latency@, i as int, (k2, cat));
                }
                self.latency.set(i, (k2, cat));
            },
            None => {
                proof {
                    lemma_push_fresh(self.latency@, (k2, cat));
                }
                self.latency.push((k2, cat));
            },
        }
    }

    /// The handler registered for `op_name`.
    pub fn handler(&self, op_name: &str) -> (h: Option<Handler>)
        requires
            self.wf(),
        ensures
            h == self.handler_map().get(op_name@),
    {
        let k = str_to_chars(op_name);
        match find_key(&self.handlers, &k) {
            Some(i) => {
                proof {
                    lemma_index_of(self.handlers@, i as int);
                }
                Some(self.handlers[i].1)
            },
            None => None,
        }
    }

    /// The latency category registered for `op_name`, `Zero` if none.
    pub fn latency_category(&self, op_name: &str) -> (c: LatencyCategory)
        requires
            self.wf(),
        ensures
            c == (if self.latency_map().contains_key(op_name@) {
                self.latency_map()[op_name@]
            } else {
                LatencyCategory::Zero
            }),
    {
        let k = str_to_chars(op_name);
        match find_key(&self.latency, &k) {
            Some(i) => {
                proof {
                    lemma_index_of(self.latency@, i as int);
                }
                self.latency[i].1
            },
            None => LatencyCategory::Zero,
        }
    }
}

impl Default for Dispatch {
    fn default() -> (d: Dispatch)
        ensures
            d.wf(),
            d.handler_map() == builtin_handlers(),
            d.latency_map() == builtin_latency(),
    {
        Dispatch::new()
    }
}

/// The ops every dialect registers, with their handlers.
pub open spec fn builtin_handlers() -> Map<Seq<char>, Handler> {
    map![
        "arith.constant"@ => Handler::ArithConstant,
        "arith.addf"@ => Handler::ArithAddf,
        "arith.mulf"@ => Handler::ArithMulf,
        "arith.addi"@ => Handler::ArithAddi,
        "return"@ => Handler::FuncReturn,
        "func.return"@ => Handler::FuncReturn,
        "scf.for"@ => Handler::ScfFor,
        "scf.if"@ => Handler::ScfIf,
        "scf.yield"@ => Handler::ScfYield,
        "linalg.matmul"@ => Handler::LinalgMatmul,
        "linalg.batch_matmul"@ => Handler::LinalgBatchMatmul,
        "linalg.generic"@ => Handler::LinalgGeneric,
        "linalg.reduce"@ => Handler::LinalgReduce,
        "linalg.transpose"@ => Handler::LinalgTranspose,
        "linalg.broadcast"@ => Handler::LinalgBroadcast,
        "linalg.fill"@ => Handler::LinalgFill,
        "linalg.index"@ => Handler::LinalgIndex,
        "linalg.yield"@ => Handler::LinalgYield,
    ]
}

/// The latency category of each built-in op.
pub open spec fn builtin_latency() -> Map<Seq<char>, LatencyCategory> {
    map![
        "arith.constant"@ => LatencyCategory::Zero,
        "arith.addf"@ => LatencyCategory::ComputeFloat,
        "arith.mulf"@ => LatencyCategory::ComputeFloat,
        "arith.addi"@ => LatencyCategory::ComputeInt,
        "return"@ => LatencyCategory::Zero,
        "func.return"@ => LatencyCategory::Zero,
        "scf.for"@ => LatencyCategory::Zero,
        "scf.if"@ => LatencyCategory::Zero,
        "scf.yield"@ => LatencyCategory::Zero,
        "linalg.matmul"@ => LatencyCategory::ComputeFloat,
        "linalg.batch_matmul"@ => LatencyCategory::ComputeFloat,
        "linalg.generic"@ => LatencyCategory::ComputeFloat,
        "linalg.reduce"@ => LatencyCategory::Zero,
        "linalg.transpose"@ => LatencyCategory::Zero,
        "linalg.broadcast"@ => LatencyCategory::Zero,
        "linalg.fill"@ => LatencyCategory::Zero,
        "linalg.index"@ => LatencyCategory::Zero,
        "linalg.yield"@ => LatencyCategory::Zero,
    ]
}

/// A registration followed by a lookup of the same name gives back what was
/// registered; other names are unaffected.
pub proof fn lemma_register_then_lookup(
    d1: Dispatch,
    d2: Dispatch,
    name: Seq<char>,
    f: Handler,
    cat: LatencyCategory,
    other: Seq<char>,
)
    requires
        d2.handler_map() == d1.handler_map().insert(name, f),
        d2.latency_map() == d1.latency_map().insert(name, cat),
        other != name,
    ensures
        d2.handler_map().get(name) == Some(f),
        d2.latency_map()[name] == cat,
        d2.handler_map().get(other) == d1.handler_map().get(other),
        d2.latency_map().contains_key(other) == d1.latency_map().contains_key(other),
{
}

} // verus!
