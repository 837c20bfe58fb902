use vstd::prelude::*;

pub mod engine;
pub mod environment;
pub mod splice;
pub mod value;

pub use environment::Environment;
pub use splice::Slot;
pub use value::Value;

use engine::{get_global_bytes, new_engine, run_chunk, set_global_bytes, text_of_bytes};
use environment::prelude;
use splice::{
    close_order, follows, lemma_content_closed, lemma_resolved_frame, resolve_region, resolved, slot_input, slots_fit,
    slots_placed, spliced,
};
use value::binding_source;

verus! {

broadcast use vstd::std_specs::vec::group_vec_axioms, vstd::seq::group_seq_axioms;

/// Why a render produced nothing.
#[derive(Debug)]
pub enum RenderError {
    /// The slot list does not describe elements of the template.
    Layout,
    /// A script failed to load or run: the script, or the name whose binding
    /// failed, and the engine's diagnostic.
    Script { code: String, message: String },
    /// The rewritten document is not UTF-8.
    Encoding,
    /// The template's markup could not be read to locate its elements.
    Markup { message: String },
}

/// A template engine: an environment of named values, bound as globals in a
/// fresh script interpreter for every render.
pub struct Lawl {
    environment: Environment,
}

impl Default for Environment {
    fn default() -> (r: Environment)
        ensures
            r.globals() == Map::<Seq<char>, Value>::empty(),
            r.functions.deep_view() == prelude(),
            r.keys_unique(),
    {
        Environment::new()
    }
}

impl Default for Lawl {
    fn default() -> (r: Lawl)
        ensures
            r.globals() == Map::<Seq<char>, Value>::empty(),
            r.prelude_loaded(),
            r.keys_unique(),
    {
        Lawl::new()
    }
}

/// What one script run means for the render: its value where it succeeded,
/// else a script error that names `code` and carries the engine's diagnostic.
pub fn script_outcome<T>(code: &String, outcome: Result<T, String>) -> (r: Result<T, RenderError>)
    ensures
        outcome is Ok <==> r is Ok,
        outcome matches Ok(v) ==> r == Ok::<T, RenderError>(v),
        outcome matches Err(m) ==> r matches Err(RenderError::Script { code: c, message })
            && c@ == code@ && message@ == m@,
{
    match outcome {
        Ok(v) => Ok(v),
        Err(message) => Err(RenderError::Script { code: code.clone(), message }),
    }
}

/// The rendered bytes as text: `Encoding` exactly when they are not UTF-8.
pub fn text_result(out: Vec<u8>) -> (r: Result<String, RenderError>)
    ensures
        vstd::utf8::valid_utf8(out@) <==> r is Ok,
        r matches Ok(s) ==> vstd::utf8::encode_utf8(s@) == out@,
        r matches Err(e) ==> e is Encoding,
{
    let ghost bytes = out@;
    match text_of_bytes(out) {
        Some(s) => {
            proof {
                vstd::utf8::decode_utf8_encode_utf8(bytes);
            }
            Ok(s)
        },
        None => Err(RenderError::Encoding),
    }
}

/// What the slots of one render produced: the spliced document, and for each
/// slot what its script was handed in `data` and what it left there.
pub struct SlotRuns {
    pub output: Vec<u8>,
    pub inputs: Vec<Vec<u8>>,
    pub results: Vec<Vec<u8>>,
}

/// Runs each slot's script once, in the order of the close tags (so every slot
/// after the slots nested in it), handing it its content with the nested
/// results substituted; stops at the first failure. Then splices the results
/// into the template.
pub fn run_slots(lua: &mlua::Lua, t: &[u8], slots: &Vec<Slot>) -> (r: Result<SlotRuns, RenderError>)
    requires
        slots_placed(slots@, t@.len()),
    ensures
        r matches Ok(runs) ==> {
            &&& runs.results@.len() == slots@.len()
            &&& runs.inputs@.len() == slots@.len()
            &&& runs.output@ == spliced(t@, slots@, runs.results.deep_view())
            &&& forall|k: int|
                0 <= k < slots@.len() ==> #[trigger] runs.inputs.deep_view()[k] == slot_input(
                    t@,
                    slots@,
                    runs.results.deep_view(),
                    k,
                )
        },
        r matches Err(e) ==> e matches RenderError::Script { code, .. } && exists|k: int|
            0 <= k < slots@.len() && code@ == #[trigger] slots@[k].code@,
        slots@.len() == 0 ==> (r matches Ok(runs) && runs.output@ == t@),
{
    let n = slots.len();
    let mut res: Vec<Vec<u8>> = Vec::new();
    let mut inputs: Vec<Vec<u8>> = Vec::new();
    let mut i: usize = 0;
    while i < n
        invariant
            i <= n,
            res@.len() == i,
            inputs@.len() == i,
        decreases n - i,
    {
        res.push(Vec::new());
        inputs.push(Vec::new());
        i = i + 1;
    }
    let order = close_order(slots, t.len());
    let mut idx: usize = 0;
    while idx < order.len()
        invariant
            slots_placed(slots@, t@.len()),
            res@.len() == n,
            inputs@.len() == n,
            n == slots@.len(),
            idx <= order@.len(),
            forall|x: int| 0 <= x < order@.len() ==> #[trigger] order@[x] < n,
            forall|x: int, y: int|
                0 <= x < y < order@.len() ==> slots@[#[trigger] order@[x] as int].close_end
                    < slots@[#[trigger] order@[y] as int].close_end,
            forall|x: int|
                0 <= x < idx ==> inputs.deep_view()[#[trigger] order@[x] as int] == slot_input(
                    t@,
                    slots@,
                    res.deep_view(),
                    order@[x] as int,
                ),
        decreases order@.len() - idx,
    {
        let k = order[idx];
        let slot = &slots[k];
        proof {
            lemma_content_closed(slots@, t@.len(), k as int);
            assert(slots@[k as int].placed(t@.len()));
        }
        let input = resolve_region(t, slots, &res, k + 1, slot.content_start, slot.content_end);
        let outcome = match set_global_bytes(lua, "data", input.as_slice()) {
            Ok(()) => match run_chunk(lua, slot.code.as_str().as_bytes()) {
                Ok(()) => get_global_bytes(lua, "data"),
                Err(message) => Err(message),
            },
            Err(message) => Err(message),
        };
        match script_outcome(&slot.code, outcome) {
            Ok(d) => {
                let ghost before = res.deep_view();
                let ghost before_inputs = inputs.deep_view();
                res.set(k, d);
                inputs.set(k, input);
                proof {
                    assert forall|j: int| 0 <= j < slots@.len() implies #[trigger] slots@[j].open_start
                        <= slots@[j].close_end by {
                        assert(slots@[j].placed(t@.len()));
                    }
                    assert forall|x: int| 0 <= x <= idx implies inputs.deep_view()[#[trigger] order@[x] as int]
                        == slot_input(t@, slots@, res.deep_view(), order@[x] as int) by {
                        let kx = order@[x] as int;
                        if x < idx {
                            assert(kx != k as int);
                            assert(inputs.deep_view()[kx] == before_inputs[kx]);
                            assert forall|j: int|
                                kx + 1 <= j < slots@.len() && slots@[kx].content_start
                                    <= #[trigger] slots@[j].open_start < slots@[kx].content_end
                                    implies before[j] == res.deep_view()[j] by {
                                assert(follows(slots@[kx], slots@[j]));
                                assert(slots@[kx].placed(t@.len()));
                                if j == k as int {
                                    assert(slots@[order@[x] as int].close_end
                                        < slots@[order@[idx as int] as int].close_end);
                                }
                            }
                            lemma_resolved_frame(
                                t@,
                                slots@,
                                before,
                                res.deep_view(),
                                kx + 1,
                                slots@[kx].content_start as int,
                                slots@[kx].content_end as int,
                            );
                        } else {
                            assert forall|j: int|
                                kx + 1 <= j < slots@.len() && slots@[kx].content_start
                                    <= #[trigger] slots@[j].open_start < slots@[kx].content_end
                                    implies before[j] == res.deep_view()[j] by {}
                            lemma_resolved_frame(
                                t@,
                                slots@,
                                before,
                                res.deep_view(),
                                kx + 1,
                                slots@[kx].content_start as int,
                                slots@[kx].content_end as int,
                            );
                        }
                    }
                }
            },
            Err(e) => {
                return Err(e);
            },
        }
        idx = idx + 1;
    }
    assert forall|j: int| 0 <= j < slots@.len() implies #[trigger] slots@[j].close_end <= t@.len() by {
        assert(slots@[j].placed(t@.len()));
    }
    let out = resolve_region(t, slots, &res, 0, 0, t.len());
    assert(res.deep_view().len() == slots@.len());
    assert forall|k: int| 0 <= k < slots@.len() implies #[trigger] inputs.deep_view()[k] == slot_input(
        t@,
        slots@,
        res.deep_view(),
        k,
    ) by {
        assert(order@.contains(k as usize));
        let x = choose|x: int| 0 <= x < order@.len() && order@[x] == k as usize;
        assert(inputs.deep_view()[order@[x] as int] == slot_input(t@, slots@, res.deep_view(), order@[x] as int));
    }
    proof {
        if n == 0 {
            assert(t@.subrange(0, t@.len() as int) =~= t@);
        }
    }
    Ok(SlotRuns { output: out, inputs, results: res })
}

/// A template with no slots comes out of the splice unchanged.
pub proof fn lemma_no_slots_identity(t: Seq<u8>, res: Seq<Seq<u8>>)
    ensures
        spliced(t, Seq::<Slot>::empty(), res) == t,
{
    assert(t.subrange(0, t.len() as int) =~= t);
}

/// A template with no slots renders to itself, byte for byte.
pub proof fn lemma_render_identity(t: &str, res: Seq<Seq<u8>>)
    ensures
        vstd::utf8::valid_utf8(spliced(vstd::utf8::encode_utf8(t@), Seq::<Slot>::empty(), res)),
        vstd::utf8::decode_utf8(spliced(vstd::utf8::encode_utf8(t@), Seq::<Slot>::empty(), res)) == t@,
{
    lemma_no_slots_identity(vstd::utf8::encode_utf8(t@), res);
    vstd::utf8::encode_utf8_valid_utf8(t@);
    vstd::utf8::encode_utf8_decode_utf8(t@);
}

/// A template that is one element and nothing else renders to exactly what
/// its script left, whatever the element held.
pub proof fn lemma_whole_slot(t: Seq<u8>, slot: Slot, result: Seq<u8>)
    requires
        slot.placed(t.len()),
        slot.open_start == 0,
        slot.close_end == t.len(),
    ensures
        spliced(t, seq![slot], seq![result]) == result,
{
    assert(t.subrange(0, 0) =~= Seq::<u8>::empty());
    assert(t.subrange(t.len() as int, t.len() as int) =~= Seq::<u8>::empty());
    assert(resolved(t, seq![slot], seq![result], 1, t.len() as int, t.len() as int) == t.subrange(
        t.len() as int,
        t.len() as int,
    ));
    assert(Seq::<u8>::empty() + result + Seq::<u8>::empty() =~= result);
}

/// Binding a name twice keeps the later value, and unbinding it afterwards
/// leaves it unbound, whatever else is bound.
pub proof fn lemma_rebind_then_remove(
    g: Map<Seq<char>, Value>,
    key: Seq<char>,
    first: Value,
    second: Value,
)
    ensures
        g.insert(key, first).insert(key, second) == g.insert(key, second),
        g.insert(key, first).insert(key, second)[key] == second,
        !g.insert(key, first).insert(key, second).remove(key).dom().contains(key),
        g.insert(key, first).insert(key, second).remove(key) == g.remove(key),
{
    assert(g.insert(key, first).insert(key, second) =~= g.insert(key, second));
    assert(g.insert(key, first).insert(key, second).remove(key) =~= g.remove(key));
}

impl Lawl {
    /// The globals that every render binds.
    pub closed spec fn globals(&self) -> Map<Seq<char>, Value> {
        self.environment.globals()
    }

    /// The five helper routines are what every render loads first.
    pub closed spec fn prelude_loaded(&self) -> bool {
        self.environment.functions.deep_view() == prelude()
    }

    /// No name is bound twice in the environment.
    pub closed spec fn keys_unique(&self) -> bool {
        self.environment.keys_unique()
    }

    /// The helper routines that every render loads, in load order.
    pub closed spec fn helpers(&self) -> Seq<Seq<char>> {
        self.environment.functions.deep_view()
    }

    /// `s` is one of the helper routines or a bound name: what a render loads
    /// before it runs the slots.
    pub closed spec fn loads(&self, s: Seq<char>) -> bool {
        self.environment.functions.deep_view().contains(s) || self.globals().dom().contains(s)
    }

    pub fn new() -> (r: Lawl)
        ensures
            r.globals() == Map::<Seq<char>, Value>::empty(),
            r.prelude_loaded(),
            r.keys_unique(),
    {
        Lawl { environment: Environment::new() }
    }

    /// Renders `template`, whose reserved elements stand at `slots`: each
    /// outermost element is replaced by what its script leaves in `data`, and
    /// every other byte is kept.
    pub fn render(&self, template: &str, slots: &Vec<Slot>) -> (r: Result<String, RenderError>)
        ensures
            !slots_placed(slots@, vstd::utf8::encode_utf8(template@).len()) <==> r matches Err(
                RenderError::Layout,
            ),
            r matches Ok(s) ==> exists|res: Seq<Seq<u8>>|
                res.len() == slots@.len() && #[trigger] spliced(
                    vstd::utf8::encode_utf8(template@),
                    slots@,
                    res,
                ) == vstd::utf8::encode_utf8(s@),
            slots@.len() == 0 ==> (r matches Ok(s) ==> s@ == template@),
            r matches Err(RenderError::Encoding) ==> exists|res: Seq<Seq<u8>>|
                res.len() == slots@.len() && !vstd::utf8::valid_utf8(
                    #[trigger] spliced(vstd::utf8::encode_utf8(template@), slots@, res),
                ),
            r matches Err(RenderError::Script { code, .. }) ==> (exists|k: int|
                0 <= k < slots@.len() && code@ == #[trigger] slots@[k].code@) || self.loads(code@),
    {
        let t = template.as_bytes();
        if !slots_fit(t.len(), slots) {
            return Err(RenderError::Layout);
        }
        let lua = new_engine();
        let mut f: usize = 0;
        while f < self.environment.functions.len()
            invariant
                t@ == vstd::utf8::encode_utf8(template@),
                slots_placed(slots@, t@.len()),
            decreases self.environment.functions@.len() - f,
        {
            let source = &self.environment.functions[f];
            let loaded = script_outcome(source, run_chunk(&lua, source.as_str().as_bytes()));
            if let Err(e) = loaded {
                assert(self.environment.functions.deep_view()[f as int] == source@);
                return Err(e);
            }
            f = f + 1;
        }
        let mut b: usize = 0;
        while b < self.environment.values.len()
            invariant
                t@ == vstd::utf8::encode_utf8(template@),
                slots_placed(slots@, t@.len()),
            decreases self.environment.values@.len() - b,
        {
            let entry = &self.environment.values[b];
            let source = binding_source(entry.0.as_str(), &entry.1);
            let bound = script_outcome(&entry.0, run_chunk(&lua, source.as_slice()));
            if let Err(e) = bound {
                proof {
                    environment::lemma_bound_keys(self.environment.values@, b as int);
                }
                return Err(e);
            }
            b = b + 1;
        }
        match run_slots(&lua, t, slots) {
            Ok(runs) => {
                let ghost bytes = runs.output@;
                let ghost res = runs.results.deep_view();
                let r = text_result(runs.output);
                proof {
                    if slots@.len() == 0 {
                        vstd::utf8::encode_utf8_valid_utf8(template@);
                        if r is Ok {
                            vstd::utf8::encode_utf8_decode_utf8(template@);
                            vstd::utf8::encode_utf8_decode_utf8((r->Ok_0)@);
                        }
                    }
                    assert(spliced(t@, slots@, res) == bytes);
                }
                r
            },
            Err(e) => Err(e),
        }
    }

    /// Binds `key` to `value` for later renders, replacing what it was bound to.
    pub fn insert(&mut self, key: &str, value: Value) -> (r: Result<(), ()>)
        ensures
            r is Ok,
            final(self).globals() == old(self).globals().insert(key@, value),
            final(self).helpers() == old(self).helpers(),
            old(self).keys_unique() ==> final(self).keys_unique(),
            final(self).prelude_loaded() == old(self).prelude_loaded(),
    {
        self.environment.insert(key, value);
        Ok(())
    }

    /// Unbinds `key` for later renders; nothing happens where it is not bound.
    pub fn remove(&mut self, key: &str) -> (r: Result<(), ()>)
        ensures
            r is Ok,
            final(self).globals() == old(self).globals().remove(key@),
            final(self).helpers() == old(self).helpers(),
            old(self).keys_unique() ==> final(self).keys_unique(),
            final(self).prelude_loaded() == old(self).prelude_loaded(),
    {
        self.environment.remove(key);
        Ok(())
    }
}

} // verus!
