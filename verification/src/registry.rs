//! The brain store: a name-to-brain mapping with lookup, insert-if-absent
//! and enumeration, and the proof that brains train independently.

use vstd::prelude::*;

use crate::brain::{Brain, BrainConfig};
use crate::chainmodel::{train_text_m, MarkovV};
use crate::markov::Markov;
use crate::rng::Rand;
use crate::text::str_eq;
use crate::types::{Error, Generated, GenerateOptions, List, ListItem, TrainData, Trained};
use vstd::pervasive::VecAdditionalExecFns;

verus! {

/// Ghost image of one registered brain.
pub struct BrainSnap {
    pub name: Seq<char>,
    pub brain_file: Seq<char>,
    pub read_only: bool,
    pub chain: MarkovV,
}

pub open spec fn snap_of(b: Brain) -> BrainSnap {
    BrainSnap {
        name: b.config.name@,
        brain_file: b.config.brain_file@,
        read_only: b.config.read_only,
        chain: b.markov@,
    }
}

/// Index of the brain carrying `name`, or -1.
pub open spec fn find_brain(rv: Seq<BrainSnap>, name: Seq<char>) -> int
    decreases rv.len(),
{
    if rv.len() == 0 {
        -1
    } else if rv[0].name == name {
        0
    } else {
        let r = find_brain(rv.drop_first(), name);
        if r == -1 {
            -1
        } else {
            r + 1
        }
    }
}

/// One brain after one train call: unchanged when read-only, else its chain
/// trained on the text.
pub open spec fn snap_train(b: BrainSnap, data: Seq<u8>) -> BrainSnap {
    if b.read_only {
        b
    } else {
        BrainSnap {
            name: b.name,
            brain_file: b.brain_file,
            read_only: b.read_only,
            chain: train_text_m(b.chain, data),
        }
    }
}

/// The registry after one train request against `name`.
pub open spec fn reg_train(rv: Seq<BrainSnap>, name: Seq<char>, data: Seq<u8>) -> Seq<BrainSnap> {
    let i = find_brain(rv, name);
    if i == -1 {
        rv
    } else {
        rv.update(i, snap_train(rv[i], data))
    }
}

/// The name-to-brain store. Entries are only ever added, never removed.
pub struct Registry {
    brains: Vec<Brain>,
    config_path: String,
}

impl View for Registry {
    type V = Seq<BrainSnap>;

    closed spec fn view(&self) -> Seq<BrainSnap> {
        Seq::new(self.brains@.len(), |i: int| snap_of(self.brains@[i]))
    }
}

impl Registry {
    pub open spec fn wf(&self) -> bool {
        &&& forall|i: int| 0 <= i < self@.len() ==> crate::chainmodel::wf_markov(
            (#[trigger] self@[i]).chain,
        )
        &&& forall|i: int, j: int|
            0 <= i < j < self@.len() ==> (#[trigger] self@[i]).name != (#[trigger] self@[j]).name
    }

    pub closed spec fn path(&self) -> Seq<char> {
        self.config_path@
    }

    pub fn new(config_path: String) -> (r: Registry)
        ensures
            r@ == Seq::<BrainSnap>::empty(),
            r.path() == config_path@,
            r.wf(),
    {
        let r = Registry { brains: Vec::new(), config_path };
        proof {
            assert(r@ =~= Seq::<BrainSnap>::empty());
        }
        r
    }

    pub fn len(&self) -> (n: usize)
        ensures
            n == self@.len(),
    {
        self.brains.len()
    }

    pub fn brain_at(&self, i: usize) -> (b: &Brain)
        requires
            i < self@.len(),
        ensures
            snap_of(*b) == self@[i as int],
    {
        &self.brains[i]
    }

    /// The brain registered under `name`, if any; never touches any chain.
    pub fn lookup(&self, name: &str) -> (r: Option<&Brain>)
        ensures
            match r {
                Some(b) => find_brain(self@, name@) != -1 && snap_of(*b) == self@[find_brain(
                    self@,
                    name@,
                )],
                None => find_brain(self@, name@) == -1,
            },
    {
        let n = self.brains.len();
        let mut i: usize = 0;
        while i < n
            invariant
                i <= n,
                n == self@.len(),
                forall|k: int| 0 <= k < i ==> (#[trigger] self@[k]).name != name@,
            decreases n - i,
        {
            if str_eq(self.brains[i].config.name.as_str(), name) {
                proof {
                    lemma_find_brain_is(self@, name@, i as int);
                }
                return Some(&self.brains[i]);
            }
            i += 1;
        }
        proof {
            lemma_find_brain_none(self@, name@);
        }
        None
    }

    /// Register a brain under its configured name; `AlreadyExists`, with
    /// nothing changed, if the name is taken.
    #[verifier::loop_isolation(false)]
    pub fn insert_if_absent(&mut self, brain: Brain) -> (r: Result<(), Error>)
        requires
            old(self).wf(),
            brain.wf(),
        ensures
            final(self).wf(),
            final(self).path() == old(self).path(),
            find_brain(old(self)@, brain.config.name@) != -1 ==> (r matches Err(
                Error::AlreadyExists { name },
            ) && name@ == brain.config.name@) && final(self)@ == old(self)@,
            find_brain(old(self)@, brain.config.name@) == -1 ==> r is Ok && final(self)@ == old(
                self,
            )@.push(snap_of(brain)),
    {
        let ghost rv = self@;
        let ghost nm = brain.config.name@;
        let n = self.brains.len();
        let mut i: usize = 0;
        while i < n
            invariant
                i <= n,
                self@ == rv,
                self.path() == old(self).path(),
                n == rv.len(),
                forall|k: int| 0 <= k < i ==> (#[trigger] rv[k]).name != nm,
            decreases n - i,
        {
            if str_eq(self.brains[i].config.name.as_str(), brain.config.name.as_str()) {
                proof {
                    lemma_find_brain_is(rv, nm, i as int);
                }
                return Err(Error::AlreadyExists { name: brain.config.name });
            }
            i += 1;
        }
        proof {
            lemma_find_brain_none(rv, nm);
        }
        let ghost snap = snap_of(brain);
        self.brains.push(brain);
        proof {
            assert(self@ =~= rv.push(snap));
            assert forall|a: int, b: int| 0 <= a < b < self@.len()
                implies (#[trigger] self@[a]).name != (#[trigger] self@[b]).name by {
                if b == self@.len() - 1 {
                    assert(rv[a].name != nm);
                }
            }
        }
        Ok(())
    }

    /// A point-in-time listing: every registered brain with its backing
    /// file and read-only flag, and the configuration path.
    #[verifier::loop_isolation(false)]
    pub fn list(&self) -> (r: List)
        ensures
            r.brains@.len() == self@.len(),
            forall|i: int|
                0 <= i < self@.len() ==> (#[trigger] r.brains@[i]).name@ == self@[i].name
                    && r.brains@[i].brain_file@ == self@[i].brain_file && r.brains@[i].read_only
                    == self@[i].read_only,
            r.config_path@ == self.path(),
    {
        let mut items: Vec<ListItem> = Vec::new();
        let n = self.brains.len();
        let mut i: usize = 0;
        while i < n
            invariant
                i <= n,
                n == self@.len(),
                items@.len() == i,
                forall|k: int|
                    0 <= k < i ==> (#[trigger] items@[k]).name@ == self@[k].name
                        && items@[k].brain_file@ == self@[k].brain_file && items@[k].read_only
                        == self@[k].read_only,
            decreases n - i,
        {
            let b = &self.brains[i];
            items.push(
                ListItem {
                    name: b.config.name.clone(),
                    brain_file: b.config.brain_file.clone(),
                    read_only: b.config.read_only,
                },
            );
            i += 1;
        }
        List { brains: items, config_path: self.config_path.clone() }
    }

    /// Resolve and train: `NotFound` for an unknown name, `ReadOnly` (with
    /// every chain untouched) for a read-only brain, and otherwise exactly
    /// the named brain's chain trained on the text.
    #[verifier::loop_isolation(false)]
    pub fn train(&mut self, name: &str, input: TrainData, elapsed_ms: u64) -> (r: Result<
        Trained,
        Error,
    >)
        requires
            old(self).wf(),
        ensures
            final(self).wf(),
            final(self).path() == old(self).path(),
            final(self)@ == reg_train(
                old(self)@,
                name@,
                crate::chainmodel::ws_normalize(vstd::utf8::encode_utf8(input.data@)),
            ),
            find_brain(old(self)@, name@) == -1 <==> r matches Err(Error::NotFound),
            find_brain(old(self)@, name@) != -1 && old(self)@[find_brain(old(self)@, name@)].read_only
                <==> r matches Err(Error::ReadOnly),
            find_brain(old(self)@, name@) != -1 && !old(self)@[find_brain(
                old(self)@,
                name@,
            )].read_only <==> r is Ok,
            r matches Ok(t) ==> t.data@ == input.data@ && t.time_ms == elapsed_ms,
    {
        let ghost rv = self@;
        let ghost nm = name@;
        let n = self.brains.len();
        let mut i: usize = 0;
        while i < n
            invariant
                i <= n,
                self@ == rv,
                self.path() == old(self).path(),
                n == rv.len(),
                forall|k: int| 0 <= k < i ==> (#[trigger] rv[k]).name != nm,
            decreases n - i,
        {
            if str_eq(self.brains[i].config.name.as_str(), name) {
                proof {
                    lemma_find_brain_is(rv, nm, i as int);
                }
                let mut b = self.take_brain(i);
                let ghost b0 = snap_of(b);
                let res = b.train(input, elapsed_ms);
                let ghost b1 = snap_of(b);
                self.put_brain(i, b);
                proof {
                    let data = crate::chainmodel::ws_normalize(
                        vstd::utf8::encode_utf8(input.data@),
                    );
                    assert(b0 == rv[i as int]);
                    assert(b1 == snap_train(b0, data));
                    assert(self@ =~= rv.update(i as int, placeholder_snap()).update(
                        i as int,
                        b1,
                    ));
                    assert(self@ =~= reg_train(rv, nm, data));
                    assert forall|a: int| 0 <= a < self@.len()
                        implies crate::chainmodel::wf_markov((#[trigger] self@[a]).chain) by {
                        if a != i {
                            assert(self@[a] == rv[a]);
                        }
                    }
                    assert forall|a: int, c: int| 0 <= a < c < self@.len()
                        implies (#[trigger] self@[a]).name != (#[trigger] self@[c]).name by {
                        assert(self@[a].name == rv[a].name);
                        assert(self@[c].name == rv[c].name);
                    }
                }
                return match res {
                    Ok(t) => Ok(t),
                    Err(e) => Err(Error::ReadOnly),
                };
            }
            i += 1;
        }
        proof {
            lemma_find_brain_none(rv, nm);
            assert(self@ =~= reg_train(
                rv,
                nm,
                crate::chainmodel::ws_normalize(vstd::utf8::encode_utf8(input.data@)),
            ));
        }
        Err(Error::NotFound)
    }

    /// Resolve and generate: `NotFound` for an unknown name, else the named
    /// brain's generate operation; no chain is changed.
    pub fn generate(&self, name: &str, rng: &mut Rand, opts: GenerateOptions) -> (r: Result<
        Generated,
        Error,
    >)
        requires
            self.wf(),
        ensures
            find_brain(self@, name@) == -1 <==> r matches Err(Error::NotFound),
            ({
                let i = find_brain(self@, name@);
                i != -1 ==> {
                    &&& self@[i].chain.starts.len() > 0 ==> (r matches Ok(g) && g.name@
                        == self@[i].name)
                    &&& self@[i].chain.starts.len() == 0 ==> (r matches Err(
                        Error::NotEnoughState,
                    ))
                    &&& r matches Ok(g) ==> crate::sample::generated_ok(
                        self@[i].chain,
                        opts.context_bytes(),
                        opts.min_or_default(),
                        opts.max_or_default(),
                        g.data@,
                    )
                }
            }),
    {
        match self.lookup(name) {
            Some(b) => {
                proof {
                    lemma_find_brain_props(self@, name@);
                    let i = find_brain(self@, name@);
                    assert(crate::chainmodel::wf_markov(self@[i].chain));
                    assert(b.markov@ == self@[i].chain);
                }
                match b.generate(rng, opts) {
                    Ok(g) => Ok(g),
                    Err(e) => Err(Error::NotEnoughState),
                }
            },
            None => Err(Error::NotFound),
        }
    }

    /// Resolve and serialize for save. Rotation of the backing file is the
    /// caller's I/O; a rotation failure is handed in and reported as
    /// `CannotRotate` with the brain's backing file, the chain left alone.
    pub fn save(&self, name: &str, rotate_failed: Option<String>) -> (r: Result<Vec<u8>, Error>)
        ensures
            find_brain(self@, name@) == -1 <==> r matches Err(Error::NotFound),
            ({
                let i = find_brain(self@, name@);
                i != -1 ==> {
                    &&& rotate_failed matches Some(reason0) ==> (r matches Err(
                        Error::CannotRotate { file, reason },
                    ) && file@ == self@[i].brain_file && reason@ == reason0@)
                    &&& rotate_failed is None && crate::persist::snappy_accepts(
                        crate::codec::enc_markov(self@[i].chain).len(),
                    ) ==> (r matches Ok(v) && v@ == crate::persist::snappy_of(
                        crate::codec::enc_markov(self@[i].chain),
                    ))
                    &&& rotate_failed is None ==> (r is Ok || r matches Err(
                        Error::CannotSave { file, reason },
                    ))
                    &&& (r matches Err(Error::CannotSave { file, reason }) ==> file@
                        == self@[i].brain_file)
                }
            }),
    {
        match self.lookup(name) {
            Some(b) => {
                match rotate_failed {
                    Some(reason) => Err(
                        Error::CannotRotate { file: b.config.brain_file.clone(), reason },
                    ),
                    None => b.save(),
                }
            },
            None => Err(Error::NotFound),
        }
    }

    fn take_brain(&mut self, i: usize) -> (r: Brain)
        requires
            i < old(self)@.len(),
        ensures
            snap_of(r) == old(self)@[i as int],
            final(self)@ == old(self)@.update(i as int, placeholder_snap()),
            final(self).path() == old(self).path(),
    {
        let mut slot = placeholder_brain();
        self.brains.set_and_swap(i, &mut slot);
        proof {
            assert(self@ =~= old(self)@.update(i as int, placeholder_snap()));
        }
        slot
    }

    fn put_brain(&mut self, i: usize, b: Brain)
        requires
            i < old(self)@.len(),
        ensures
            final(self)@ == old(self)@.update(i as int, snap_of(b)),
            final(self).path() == old(self).path(),
    {
        let ghost s = snap_of(b);
        self.brains.set(i, b);
        proof {
            assert(self@ =~= old(self)@.update(i as int, s));
        }
    }
}

fn placeholder_brain() -> (r: Brain)
    ensures
        snap_of(r) == placeholder_snap(),
{
    let r = Brain {
        config: BrainConfig {
            name: String::new(),
            brain_file: String::new(),
            read_only: false,
        },
        markov: Markov::new(1, String::new()),
    };
    proof {
        assert(snap_of(r).chain == placeholder_snap().chain);
    }
    r
}

/// The ghost image of the placeholder briefly holding a slot while its
/// brain is being trained.
pub open spec fn placeholder_snap() -> BrainSnap {
    BrainSnap {
        name: Seq::empty(),
        brain_file: Seq::empty(),
        read_only: false,
        chain: MarkovV {
            chain: Seq::empty(),
            starts: Seq::empty(),
            depth: 1,
            name: Seq::empty(),
        },
    }
}

/// One training request: the brain it names and the text it carries.
pub struct Op {
    pub name: Seq<char>,
    pub data: Seq<u8>,
}

/// The registry after a whole execution: the requests applied first to
/// last, in the order the per-brain locks granted them.
pub open spec fn apply_ops(rv: Seq<BrainSnap>, ops: Seq<Op>) -> Seq<BrainSnap>
    decreases ops.len(),
{
    if ops.len() == 0 {
        rv
    } else {
        reg_train(apply_ops(rv, ops.drop_last()), ops.last().name, ops.last().data)
    }
}

/// The texts of the requests naming `name`, in their relative order.
pub open spec fn own_data(ops: Seq<Op>, name: Seq<char>) -> Seq<Seq<u8>>
    decreases ops.len(),
{
    if ops.len() == 0 {
        Seq::empty()
    } else {
        own_data(ops.drop_last(), name) + (if ops.last().name == name {
            seq![ops.last().data]
        } else {
            Seq::empty()
        })
    }
}

/// One brain trained on a list of texts, first to last.
pub open spec fn fold_own(b: BrainSnap, ds: Seq<Seq<u8>>) -> BrainSnap
    decreases ds.len(),
{
    if ds.len() == 0 {
        b
    } else {
        snap_train(fold_own(b, ds.drop_last()), ds.last())
    }
}

proof fn lemma_find_brain_same_names(a: Seq<BrainSnap>, b: Seq<BrainSnap>, name: Seq<char>)
    requires
        a.len() == b.len(),
        forall|i: int| 0 <= i < a.len() ==> (#[trigger] a[i]).name == b[i].name,
    ensures
        find_brain(a, name) == find_brain(b, name),
    decreases a.len(),
{
    if a.len() > 0 {
        let da = a.drop_first();
        let db = b.drop_first();
        assert forall|i: int| 0 <= i < da.len() implies (#[trigger] da[i]).name == db[i].name by {
            assert(da[i] == a[i + 1]);
            assert(db[i] == b[i + 1]);
        }
        if a[0].name != name {
            lemma_find_brain_same_names(da, db, name);
        }
    }
}

/// Cross-brain independence: however training requests against distinct
/// brains interleave, each brain's final chain is what its own requests
/// alone, in their relative order, produce; names, files and read-only
/// flags never move.
pub proof fn lemma_cross_brain_independence(rv: Seq<BrainSnap>, ops: Seq<Op>, name: Seq<char>)
    requires
        forall|i: int, j: int|
            0 <= i < j < rv.len() ==> (#[trigger] rv[i]).name != (#[trigger] rv[j]).name,
    ensures
        apply_ops(rv, ops).len() == rv.len(),
        forall|i: int|
            0 <= i < rv.len() ==> (#[trigger] apply_ops(rv, ops)[i]).name == rv[i].name
                && apply_ops(rv, ops)[i].read_only == rv[i].read_only && apply_ops(
                rv,
                ops,
            )[i].brain_file == rv[i].brain_file,
        find_brain(rv, name) != -1 ==> apply_ops(rv, ops)[find_brain(rv, name)] == fold_own(
            rv[find_brain(rv, name)],
            own_data(ops, name),
        ),
    decreases ops.len(),
{
    lemma_find_brain_props(rv, name);
    if ops.len() > 0 {
        let front = ops.drop_last();
        let last = ops.last();
        let prev = apply_ops(rv, front);
        lemma_cross_brain_independence(rv, front, name);
        lemma_cross_brain_independence(rv, front, last.name);
        lemma_find_brain_same_names(prev, rv, last.name);
        lemma_find_brain_same_names(prev, rv, name);
        lemma_find_brain_props(rv, last.name);
        let t = find_brain(rv, last.name);
        let cur = apply_ops(rv, ops);
        assert(cur == reg_train(prev, last.name, last.data));
        if t != -1 {
            assert(cur == prev.update(t, snap_train(prev[t], last.data)));
        } else {
            assert(cur == prev);
        }
        let j = find_brain(rv, name);
        if j != -1 {
            if last.name == name {
                assert(t == j);
                let ownf = own_data(front, name);
                assert(own_data(ops, name) =~= ownf.push(last.data));
                assert(own_data(ops, name).drop_last() =~= ownf);
                assert(fold_own(rv[j], own_data(ops, name)) == snap_train(
                    fold_own(rv[j], ownf),
                    last.data,
                ));
                assert(cur[j] == snap_train(prev[j], last.data));
            } else {
                assert(own_data(ops, name) + Seq::<Seq<u8>>::empty() =~= own_data(ops, name));
                assert(own_data(ops, name) =~= own_data(front, name));
                if t != -1 {
                    assert(rv[t].name == last.name);
                    assert(rv[j].name == name);
                    assert(t != j);
                    assert(cur[j] == prev[j]);
                }
            }
        }
    }
}

pub proof fn lemma_find_brain_props(rv: Seq<BrainSnap>, name: Seq<char>)
    ensures
        -1 <= find_brain(rv, name) < rv.len(),
        find_brain(rv, name) != -1 ==> rv[find_brain(rv, name)].name == name,
        forall|k: int| 0 <= k < rv.len() && (find_brain(rv, name) == -1 || k < find_brain(rv, name))
            ==> (#[trigger] rv[k]).name != name,
    decreases rv.len(),
{
    if rv.len() > 0 && rv[0].name != name {
        let d = rv.drop_first();
        lemma_find_brain_props(d, name);
        assert forall|k: int|
            0 <= k < rv.len() && (find_brain(rv, name) == -1 || k < find_brain(rv, name))
            implies (#[trigger] rv[k]).name != name by {
            if k > 0 {
                assert(rv[k] == d[k - 1]);
            }
        }
    }
}

pub proof fn lemma_find_brain_is(rv: Seq<BrainSnap>, name: Seq<char>, j: int)
    requires
        0 <= j < rv.len(),
        rv[j].name == name,
        forall|k: int| 0 <= k < j ==> (#[trigger] rv[k]).name != name,
    ensures
        find_brain(rv, name) == j,
    decreases rv.len(),
{
    if j > 0 {
        lemma_find_brain_is(rv.drop_first(), name, j - 1);
    }
}

pub proof fn lemma_find_brain_none(rv: Seq<BrainSnap>, name: Seq<char>)
    requires
        forall|k: int| 0 <= k < rv.len() ==> (#[trigger] rv[k]).name != name,
    ensures
        find_brain(rv, name) == -1,
    decreases rv.len(),
{
    if rv.len() > 0 {
        lemma_find_brain_none(rv.drop_first(), name);
    }
}

} // verus!
