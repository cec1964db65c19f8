//! The evaluation environment: request and variable bindings, the host
//! callback interface, and the gas budget.
use vstd::prelude::*;

use crate::text::str_eq;
use crate::types::{view_of_nodes, wf_view, Decimal, Node, NodeView};

verus! {

/// A string-keyed binding table with a `Map` view; a later insert of the
/// same key shadows the earlier one.
pub struct Bindings {
    pub entries: Vec<(String, Node)>,
}

/// The map denoted by a sequence of bindings, later entries winning.
pub open spec fn map_of(s: Seq<(String, Node)>) -> Map<Seq<char>, NodeView>
    decreases s,
{
    if s.len() == 0 {
        Map::empty()
    } else {
        map_of(s.drop_last()).insert(s.last().0@, s.last().1@)
    }
}

impl View for Bindings {
    type V = Map<Seq<char>, NodeView>;

    open spec fn view(&self) -> Map<Seq<char>, NodeView> {
        map_of(self.entries@)
    }
}

impl Bindings {
    /// Every bound value is well formed.
    pub open spec fn wf(&self) -> bool {
        forall|k: Seq<char>| #[trigger] self@.contains_key(k) ==> wf_view(self@[k])
    }

    pub fn new() -> (r: Bindings)
        ensures
            r@ == Map::<Seq<char>, NodeView>::empty(),
    {
        Bindings { entries: Vec::new() }
    }

    pub fn insert(&mut self, key: String, value: Node)
        ensures
            final(self)@ == old(self)@.insert(key@, value@),
    {
        let ghost entry = self.entries@;
        self.entries.push((key, value));
        proof {
            assert(self.entries@.drop_last() =~= entry);
        }
    }

    pub fn get(&self, key: &str) -> (r: Option<&Node>)
        ensures
            match r {
                Some(v) => self@.contains_key(key@) && v@ == self@[key@],
                None => !self@.contains_key(key@),
            },
    {
        let n = self.entries.len();
        let mut i: usize = n;
        proof {
            assert(self.entries@.take(n as int) =~= self.entries@);
        }
        while i > 0
            invariant
                n == self.entries@.len(),
                0 <= i <= n,
                map_of(self.entries@).contains_key(key@)
                    == map_of(self.entries@.take(i as int)).contains_key(key@),
                map_of(self.entries@).contains_key(key@)
                    ==> map_of(self.entries@)[key@]
                        == map_of(self.entries@.take(i as int))[key@],
            decreases i,
        {
            i = i - 1;
            let hit = str_eq(self.entries[i].0.as_str(), key);
            proof {
                assert(self.entries@.take(i + 1).drop_last() =~= self.entries@.take(i as int));
                assert(self.entries@.take(i + 1).last() == self.entries@[i as int]);
            }
            if hit {
                return Some(&self.entries[i].1);
            }
        }
        proof {
            assert(self.entries@.take(0) =~= Seq::<(String, Node)>::empty());
        }
        None
    }
}

/// The mathematical model of the host callbacks: what each predicate
/// answers, as a function of its evaluated arguments.
pub ghost struct HooksModel {
    pub dpop: bool,
    pub thresh: bool,
    pub merkle: spec_fn(Seq<NodeView>) -> bool,
    pub vrf: spec_fn(Seq<char>, int, nat) -> bool,
    pub count: spec_fn(Seq<char>, Seq<char>) -> int,
}

/// The host callback interface: the crypto predicates and the per-day
/// counter, which need state (replay caches, key registries, counters) that
/// lives outside the evaluator. Each implementor fixes a [`HooksModel`] and
/// answers according to it; the counter is non-negative.
pub trait CryptoCallbacks {
    spec fn model(&self) -> HooksModel;

    fn dpop_ok(&self) -> (r: bool)
        ensures
            r == self.model().dpop,
    ;

    fn merkle_ok(&self, args: &Vec<Node>) -> (r: bool)
        ensures
            r == (self.model().merkle)(view_of_nodes(args@)),
    ;

    fn vrf_ok(&self, day: &String, amount: &Decimal) -> (r: bool)
        ensures
            r == (self.model().vrf)(day@, amount.m() as int, amount.s()),
    ;

    fn thresh_ok(&self) -> (r: bool)
        ensures
            r == self.model().thresh,
    ;

    fn per_day_count(&self, action: &String, day: &String) -> (r: i64)
        ensures
            0 <= r,
            r as int == (self.model().count)(action@, day@),
    ;
}

/// Fixed-answer callbacks: each predicate returns its field, the counter
/// returns `count` (clamped to zero from below). The all-false value stands
/// in for hosts that supply nothing.
#[derive(Clone, Copy, Debug)]
pub struct StubCallbacks {
    pub dpop: bool,
    pub merkle: bool,
    pub vrf: bool,
    pub thresh: bool,
    pub count: i64,
}

impl StubCallbacks {
    /// All predicates false, counter zero.
    pub fn none() -> (r: StubCallbacks)
        ensures
            r.model().dpop == false,
            r.model().thresh == false,
            forall|args: Seq<NodeView>| !(#[trigger] (r.model().merkle)(args)),
            forall|d: Seq<char>, m: int, s: nat| !(#[trigger] (r.model().vrf)(d, m, s)),
            forall|a: Seq<char>, d: Seq<char>| (#[trigger] (r.model().count)(a, d)) == 0,
    {
        StubCallbacks { dpop: false, merkle: false, vrf: false, thresh: false, count: 0 }
    }
}

impl CryptoCallbacks for StubCallbacks {
    open spec fn model(&self) -> HooksModel {
        HooksModel {
            dpop: self.dpop,
            thresh: self.thresh,
            merkle: |args: Seq<NodeView>| self.merkle,
            vrf: |d: Seq<char>, m: int, s: nat| self.vrf,
            count: |a: Seq<char>, d: Seq<char>|
                if self.count < 0 {
                    0int
                } else {
                    self.count as int
                },
        }
    }

    fn dpop_ok(&self) -> (r: bool) {
        self.dpop
    }

    fn merkle_ok(&self, args: &Vec<Node>) -> (r: bool) {
        self.merkle
    }

    fn vrf_ok(&self, day: &String, amount: &Decimal) -> (r: bool) {
        self.vrf
    }

    fn thresh_ok(&self) -> (r: bool) {
        self.thresh
    }

    fn per_day_count(&self, action: &String, day: &String) -> (r: i64) {
        if self.count < 0 {
            0
        } else {
            self.count
        }
    }
}

/// The evaluation environment.
pub struct Env<C: CryptoCallbacks> {
    /// The incoming access request, by field name.
    pub req: Bindings,
    /// Policy-defined names.
    pub vars: Bindings,
    /// Host callbacks.
    pub crypto: C,
    /// Gas budget for one evaluation.
    pub max_gas: i64,
    /// When set, the verifier facade refuses evaluation.
    pub sealed: bool,
    /// Reserved; nothing consults it.
    pub strict: bool,
}

/// The model of an environment, as the interpreter's semantics read it.
pub ghost struct EnvModel {
    pub req: Map<Seq<char>, NodeView>,
    pub vars: Map<Seq<char>, NodeView>,
    pub hooks: HooksModel,
}

impl<C: CryptoCallbacks> Env<C> {
    pub open spec fn model(&self) -> EnvModel {
        EnvModel { req: self.req@, vars: self.vars@, hooks: self.crypto.model() }
    }

    /// Every bound value is well formed.
    pub open spec fn wf(&self) -> bool {
        self.req.wf() && self.vars.wf()
    }
}

impl Default for Env<StubCallbacks> {
    /// Empty bindings, all-false callbacks, a gas budget of 10,000.
    fn default() -> (r: Self)
        ensures
            r.req@ == Map::<Seq<char>, NodeView>::empty(),
            r.vars@ == Map::<Seq<char>, NodeView>::empty(),
            r.crypto == (StubCallbacks {
                dpop: false,
                merkle: false,
                vrf: false,
                thresh: false,
                count: 0,
            }),
            r.max_gas == 10000,
            !r.sealed,
            !r.strict,
            r.wf(),
    {
        Env {
            req: Bindings::new(),
            vars: Bindings::new(),
            crypto: StubCallbacks {
                dpop: false,
                merkle: false,
                vrf: false,
                thresh: false,
                count: 0,
            },
            max_gas: 10000,
            sealed: false,
            strict: false,
        }
    }
}

} // verus!
