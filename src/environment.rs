use vstd::prelude::*;
use crate::ast::same_bytes;
use crate::object::{EvalError, Object};

verus! {

/// One binding: the frame it belongs to, the name, and the value.
pub type Binding<'a> = (usize, &'a [u8], Object<'a>);

/// The abstract state of an environment arena: every binding ever made, in
/// order, and for each frame the frame that encloses it.
pub struct EnvState<'a> {
    pub bindings: Seq<Binding<'a>>,
    pub outers: Seq<Option<usize>>,
}

/// An arena of environment frames. Frame `0` is the global frame; a frame
/// is named by its index, which stays valid for as long as the arena lives.
/// Bindings are only ever added, and the latest binding of a name in a frame
/// shadows the earlier ones.
pub struct Environment<'a> {
    bindings: Vec<Binding<'a>>,
    outers: Vec<Option<usize>>,
}

/// The global frame.
pub const GLOBAL: usize = 0;

/// `v` refers to no frame at or beyond `n`, and a return marker does not
/// wrap another one.
pub open spec fn value_ok(v: Object, n: nat) -> bool
    decreases v,
{
    match v {
        Object::Function(_, e) => e < n,
        Object::Return(inner) => !(*inner is Return) && value_ok(*inner, n),
        _ => true,
    }
}

/// Each frame encloses only older frames, and every binding and every
/// closure names an existing frame.
pub open spec fn state_wf(s: EnvState) -> bool {
    &&& 0 < s.outers.len()
    &&& forall|i: int|
        0 <= i < s.outers.len() && (#[trigger] s.outers[i]) is Some ==> s.outers[i].unwrap() < i
    &&& forall|k: int|
        0 <= k < s.bindings.len() ==> (#[trigger] s.bindings[k]).0 < s.outers.len() && value_ok(
            s.bindings[k].2,
            s.outers.len(),
        )
}

/// `t` extends `s`: it keeps every frame and every binding of `s`.
pub open spec fn extends(s: EnvState, t: EnvState) -> bool {
    &&& s.outers.len() <= t.outers.len()
    &&& s.bindings.len() <= t.bindings.len()
    &&& t.outers.subrange(0, s.outers.len() as int) == s.outers
    &&& t.bindings.subrange(0, s.bindings.len() as int) == s.bindings
}

/// The latest binding of `name` in frame `f` among the first `upto` bindings.
pub open spec fn find_binding<'a>(b: Seq<Binding<'a>>, f: usize, name: Seq<u8>, upto: int) -> Option<
    Object<'a>,
>
    decreases upto,
{
    if upto <= 0 || upto > b.len() {
        None
    } else if b[upto - 1].0 == f && b[upto - 1].1@ == name {
        Some(b[upto - 1].2)
    } else {
        find_binding(b, f, name, upto - 1)
    }
}

/// Looks `name` up in frame `f`, then in the frames that enclose it.
pub open spec fn lookup<'a>(s: EnvState<'a>, f: usize, name: Seq<u8>) -> Option<Object<'a>>
    decreases f,
{
    match find_binding(s.bindings, f, name, s.bindings.len() as int) {
        Some(v) => Some(v),
        None => if f < s.outers.len() && s.outers[f as int] is Some && s.outers[f as int].unwrap()
            < f {
            lookup(s, s.outers[f as int].unwrap(), name)
        } else {
            None
        },
    }
}

/// `s` with `name` bound to `v` in frame `f`.
pub open spec fn bind<'a>(s: EnvState<'a>, f: usize, name: &'a [u8], v: Object<'a>) -> EnvState<'a> {
    EnvState { bindings: s.bindings.push((f, name, v)), outers: s.outers }
}

/// `s` with a new, empty frame enclosed by `outer`.
pub open spec fn enclose<'a>(s: EnvState<'a>, outer: usize) -> EnvState<'a> {
    EnvState { bindings: s.bindings, outers: s.outers.push(Some(outer)) }
}

impl<'a> View for Environment<'a> {
    type V = EnvState<'a>;

    closed spec fn view(&self) -> EnvState<'a> {
        EnvState { bindings: self.bindings@, outers: self.outers@ }
    }
}

/// An arena that holds only the empty global frame.
pub fn new<'a>() -> (env: Environment<'a>)
    ensures
        env@.bindings == Seq::<Binding<'a>>::empty(),
        env@.outers == seq![None::<usize>],
        state_wf(env@),
{
    let mut outers: Vec<Option<usize>> = Vec::new();
    outers.push(None);
    Environment { bindings: Vec::new(), outers }
}

/// Adds a new, empty frame enclosed by `outer` and returns its index.
pub fn new_enclosed_environment<'a>(env: &mut Environment<'a>, outer: usize) -> (f: usize)
    requires
        state_wf(old(env)@),
        outer < old(env)@.outers.len(),
    ensures
        final(env)@ == enclose(old(env)@, outer),
        f == old(env)@.outers.len(),
        state_wf(final(env)@),
{
    let f = env.outers.len();
    env.outers.push(Some(outer));
    proof {
        let s = env@;
        let o = old(env)@;
        assert(s.bindings == o.bindings);
        assert forall|k: int| 0 <= k < s.bindings.len() implies (#[trigger] s.bindings[k]).0
            < s.outers.len() && value_ok(s.bindings[k].2, s.outers.len()) by {
            assert(o.bindings[k] == s.bindings[k]);
            lemma_value_ok_grows(s.bindings[k].2, o.outers.len(), s.outers.len());
        }
        assert forall|i: int|
            0 <= i < s.outers.len() && (#[trigger] s.outers[i]) is Some implies s.outers[i].unwrap()
            < i by {
            if i < o.outers.len() {
                assert(o.outers[i] == s.outers[i]);
            }
        }
    }
    f
}

pub proof fn lemma_value_ok_grows(v: Object, n: nat, m: nat)
    requires
        value_ok(v, n),
        n <= m,
    ensures
        value_ok(v, m),
    decreases v,
{
    if let Object::Return(inner) = v {
        lemma_value_ok_grows(*inner, n, m);
    }
}

proof fn lemma_find_binding_ok<'a>(b: Seq<Binding<'a>>, f: usize, name: Seq<u8>, upto: int, n: nat)
    requires
        forall|k: int| 0 <= k < b.len() ==> value_ok((#[trigger] b[k]).2, n),
    ensures
        find_binding(b, f, name, upto) matches Some(v) ==> value_ok(v, n),
    decreases upto,
{
    if 0 < upto <= b.len() {
        let _ = b[upto - 1];
        lemma_find_binding_ok(b, f, name, upto - 1, n);
    }
}

/// In a well-formed state every value found by a lookup names existing frames.
pub proof fn lemma_lookup_ok<'a>(s: EnvState<'a>, f: usize, name: Seq<u8>)
    requires
        state_wf(s),
    ensures
        lookup(s, f, name) matches Some(v) ==> value_ok(v, s.outers.len()),
    decreases f,
{
    lemma_find_binding_ok(s.bindings, f, name, s.bindings.len() as int, s.outers.len());
    if f < s.outers.len() && s.outers[f as int] is Some && s.outers[f as int].unwrap() < f {
        lemma_lookup_ok(s, s.outers[f as int].unwrap(), name);
    }
}

proof fn lemma_find_binding_prefix<'a>(
    b: Seq<Binding<'a>>,
    c: Seq<Binding<'a>>,
    g: usize,
    name: Seq<u8>,
    upto: int,
)
    requires
        0 <= upto <= b.len() <= c.len(),
        c.subrange(0, b.len() as int) == b,
    ensures
        find_binding(c, g, name, upto) == find_binding(b, g, name, upto),
    decreases upto,
{
    if upto > 0 {
        assert(c.subrange(0, b.len() as int)[upto - 1] == c[upto - 1]);
        lemma_find_binding_prefix(b, c, g, name, upto - 1);
    }
}

proof fn lemma_find_binding_skip<'a>(c: Seq<Binding<'a>>, g: usize, name: Seq<u8>, lo: int, upto: int)
    requires
        0 <= lo <= upto <= c.len(),
        forall|k: int| lo <= k < upto ==> (#[trigger] c[k]).0 != g,
    ensures
        find_binding(c, g, name, upto) == find_binding(c, g, name, lo),
    decreases upto,
{
    if upto > lo {
        let _ = c[upto - 1];
        lemma_find_binding_skip(c, g, name, lo, upto - 1);
    }
}

/// Adding frames, and bindings in frames that `s` did not have, changes no
/// lookup made from a frame of `s`.
pub proof fn lemma_lookup_unchanged<'a>(s: EnvState<'a>, t: EnvState<'a>, g: usize, name: Seq<u8>)
    requires
        s.outers.len() <= t.outers.len(),
        s.bindings.len() <= t.bindings.len(),
        t.outers.subrange(0, s.outers.len() as int) == s.outers,
        t.bindings.subrange(0, s.bindings.len() as int) == s.bindings,
        forall|k: int|
            s.bindings.len() <= k < t.bindings.len() ==> (#[trigger] t.bindings[k]).0
                >= s.outers.len(),
        g < s.outers.len(),
    ensures
        lookup(t, g, name) == lookup(s, g, name),
    decreases g,
{
    lemma_find_binding_skip(t.bindings, g, name, s.bindings.len() as int, t.bindings.len() as int);
    lemma_find_binding_prefix(s.bindings, t.bindings, g, name, s.bindings.len() as int);
    assert(t.outers.subrange(0, s.outers.len() as int)[g as int] == t.outers[g as int]);
    if s.outers[g as int] is Some && s.outers[g as int].unwrap() < g {
        lemma_lookup_unchanged(s, t, s.outers[g as int].unwrap(), name);
    }
}

impl<'a> Environment<'a> {
    /// Number of frames.
    pub fn frame_count(&self) -> (n: usize)
        ensures
            n == self@.outers.len(),
    {
        self.outers.len()
    }

    fn find_in_frame(&self, f: usize, ident: &[u8]) -> (r: Option<Object<'a>>)
        ensures
            r == find_binding(self@.bindings, f, ident@, self@.bindings.len() as int),
    {
        let mut i = self.bindings.len();
        while i > 0
            invariant
                i <= self@.bindings.len(),
                find_binding(self@.bindings, f, ident@, self@.bindings.len() as int)
                    == find_binding(self@.bindings, f, ident@, i as int),
            decreases i,
        {
            let b = &self.bindings[i - 1];
            if b.0 == f && same_bytes(b.1, ident) {
                return Some(b.2.duplicate());
            }
            i = i - 1;
        }
        None
    }

    /// The value of `ident` as seen from frame `frame`, or `NotFound`.
    pub fn get(&self, frame: usize, ident: &'a [u8]) -> (r: Result<Object<'a>, EvalError<'a>>)
        requires
            state_wf(self@),
            frame < self@.outers.len(),
        ensures
            r == match lookup(self@, frame, ident@) {
                Some(v) => Ok::<Object<'a>, EvalError<'a>>(v),
                None => Err(EvalError::NotFound(ident)),
            },
            r matches Ok(v) ==> value_ok(v, self@.outers.len()),
    {
        let mut f = frame;
        loop
            invariant
                state_wf(self@),
                f < self@.outers.len(),
                lookup(self@, frame, ident@) == lookup(self@, f, ident@),
            decreases f,
        {
            if let Some(v) = self.find_in_frame(f, ident) {
                proof {
                    lemma_lookup_ok(self@, frame, ident@);
                }
                return Ok(v);
            }
            match self.outers[f] {
                Some(o) => {
                    f = o;
                },
                None => {
                    return Err(EvalError::NotFound(ident));
                },
            }
        }
    }

    /// Binds `ident` to `obj` in frame `frame`.
    pub fn set(&mut self, frame: usize, ident: &'a [u8], obj: Object<'a>)
        requires
            state_wf(old(self)@),
            frame < old(self)@.outers.len(),
            value_ok(obj, old(self)@.outers.len()),
        ensures
            final(self)@ == bind(old(self)@, frame, ident, obj),
            state_wf(final(self)@),
    {
        self.bindings.push((frame, ident, obj));
        proof {
            let s = self@;
            let o = old(self)@;
            assert forall|k: int| 0 <= k < s.bindings.len() implies (#[trigger] s.bindings[k]).0
                < s.outers.len() && value_ok(s.bindings[k].2, s.outers.len()) by {
                if k < o.bindings.len() {
                    assert(o.bindings[k] == s.bindings[k]);
                }
            }
            assert(s =~= bind(o, frame, ident, obj));
        }
    }
}

} // verus!
