//! Scopes of variables. All scopes live in one store, `Environments`; an
//! `Environment` is a handle to one of them. A scope only ever encloses
//! scopes created before it, so every chain of enclosing scopes ends.
use vstd::prelude::*;
use crate::text::chars_eq;

verus! {

/// One scope: its names with their values, in the order they were defined,
/// and the scope around it.
pub struct Inner<T> {
    pub enclosing: Option<usize>,
    pub keys: Vec<Vec<char>>,
    pub values: Vec<T>,
}

/// A scope as the specification sees it.
pub struct FrameView<T> {
    pub enclosing: Option<usize>,
    pub keys: Seq<Seq<char>>,
    pub values: Seq<T>,
}

/// The store of all scopes.
pub struct Environments<T> {
    pub frames: Vec<Inner<T>>,
}

/// A handle to one scope of a store.
#[derive(Clone, Copy, Debug, PartialEq, Eq, Structural)]
pub struct Environment {
    pub index: usize,
}

/// The position of the most recent definition of `key` among `keys`, or -1.
pub open spec fn key_index(keys: Seq<Seq<char>>, key: Seq<char>) -> int
    decreases keys.len(),
{
    if keys.len() == 0 {
        -1
    } else if keys.last() == key {
        keys.len() - 1
    } else {
        key_index(keys.drop_last(), key)
    }
}

pub proof fn lemma_key_index(keys: Seq<Seq<char>>, key: Seq<char>)
    ensures
        -1 <= key_index(keys, key) < keys.len(),
        key_index(keys, key) >= 0 ==> keys[key_index(keys, key)] == key,
        forall|j: int| key_index(keys, key) < j < keys.len() ==> keys[j] != key,
    decreases keys.len(),
{
    if keys.len() > 0 && keys.last() != key {
        lemma_key_index(keys.drop_last(), key);
        assert forall|j: int| key_index(keys, key) < j < keys.len() implies keys[j] != key by {
            if j < keys.len() - 1 {
                assert(keys.drop_last()[j] == keys[j]);
            }
        }
    }
}

/// The value `key` has in the scope itself.
pub open spec fn local_value<T>(f: FrameView<T>, key: Seq<char>) -> Option<T> {
    let i = key_index(f.keys, key);
    if 0 <= i < f.values.len() {
        Some(f.values[i])
    } else {
        None
    }
}

/// The value `key` has as seen from scope `frame`: in the scope itself, or
/// else in the scopes around it.
pub open spec fn lookup<T>(v: Seq<FrameView<T>>, frame: int, key: Seq<char>) -> Option<T>
    decreases frame,
{
    if frame < 0 || frame >= v.len() {
        None
    } else {
        match local_value(v[frame], key) {
            Some(x) => Some(x),
            None => match v[frame].enclosing {
                Some(p) => if p < frame {
                    lookup(v, p as int, key)
                } else {
                    None
                },
                None => None,
            },
        }
    }
}

/// The value `key` has in the scope `distance` steps out from `frame`.
pub open spec fn lookup_at<T>(v: Seq<FrameView<T>>, frame: int, key: Seq<char>, distance: nat) -> Option<
    T,
>
    decreases distance,
{
    if frame < 0 || frame >= v.len() {
        None
    } else if distance == 0 {
        local_value(v[frame], key)
    } else {
        match v[frame].enclosing {
            Some(p) => lookup_at(v, p as int, key, (distance - 1) as nat),
            None => None,
        }
    }
}

/// The scope in which a lookup of `key` from `frame` finds it, or -1.
pub open spec fn owner<T>(v: Seq<FrameView<T>>, frame: int, key: Seq<char>) -> int
    decreases frame,
{
    if frame < 0 || frame >= v.len() {
        -1
    } else if local_value(v[frame], key) is Some {
        frame
    } else {
        match v[frame].enclosing {
            Some(p) => if p < frame {
                owner(v, p as int, key)
            } else {
                -1
            },
            None => -1,
        }
    }
}

/// The store after `key` is defined as `value` in scope `frame`.
pub open spec fn defined<T>(v: Seq<FrameView<T>>, frame: int, key: Seq<char>, value: T) -> Seq<
    FrameView<T>,
> {
    v.update(
        frame,
        FrameView {
            enclosing: v[frame].enclosing,
            keys: v[frame].keys.push(key),
            values: v[frame].values.push(value),
        },
    )
}

/// The store after the definition of `key` that a lookup from `frame`
/// finds is set to `value`.
pub open spec fn assigned<T>(v: Seq<FrameView<T>>, frame: int, key: Seq<char>, value: T) -> Seq<
    FrameView<T>,
> {
    let o = owner(v, frame, key);
    v.update(
        o,
        FrameView {
            enclosing: v[o].enclosing,
            keys: v[o].keys,
            values: v[o].values.update(key_index(v[o].keys, key), value),
        },
    )
}

/// A new scope around nothing, or around `enclosing`.
pub open spec fn fresh<T>(enclosing: Option<usize>) -> FrameView<T> {
    FrameView { enclosing, keys: Seq::empty(), values: Seq::empty() }
}

/// Every scope encloses only earlier scopes, and has a value for each name.
pub open spec fn store_wf<T>(v: Seq<FrameView<T>>) -> bool {
    forall|i: int|
        0 <= i < v.len() ==> (#[trigger] v[i]).keys.len() == v[i].values.len() && (
        v[i].enclosing matches Some(p) ==> p < i)
}


/// A definition is seen from its own scope: after `key` is defined as
/// `value` in a scope, looking `key` up from that scope gives `value`.
pub proof fn lemma_get_after_define<T>(v: Seq<FrameView<T>>, frame: int, key: Seq<char>, value: T)
    requires
        store_wf(v),
        0 <= frame < v.len(),
    ensures
        lookup(defined(v, frame, key, value), frame, key) == Some(value),
{
    let nv = defined(v, frame, key, value);
    assert(nv[frame].keys.last() == key);
    assert(key_index(nv[frame].keys, key) == v[frame].keys.len());
}

/// Defining one name changes the lookup of no other name, from any scope.
pub proof fn lemma_define_keeps_other_names<T>(
    v: Seq<FrameView<T>>,
    frame: int,
    key: Seq<char>,
    value: T,
    g: int,
    other: Seq<char>,
)
    requires
        store_wf(v),
        0 <= frame < v.len(),
        other != key,
    ensures
        lookup(defined(v, frame, key, value), g, other) == lookup(v, g, other),
    decreases g,
{
    let nv = defined(v, frame, key, value);
    if 0 <= g < v.len() {
        if g == frame {
            assert(nv[g].keys.drop_last() =~= v[g].keys);
            lemma_key_index(v[g].keys, other);
            assert(local_value(nv[g], other) == local_value(v[g], other)) by {
                let i = key_index(v[g].keys, other);
                if i >= 0 {
                    assert(nv[g].values[i] == v[g].values[i]);
                }
            }
        }
        assert(nv[g].enclosing == v[g].enclosing);
        match v[g].enclosing {
            Some(p) => {
                if p < g {
                    lemma_define_keeps_other_names(v, frame, key, value, p as int, other);
                }
            },
            None => {},
        }
    }
}

/// A definition in a scope is invisible from the scopes made before it,
/// such as the scopes it is enclosed by: inner definitions shadow without
/// overwriting.
pub proof fn lemma_define_keeps_outer<T>(
    v: Seq<FrameView<T>>,
    frame: int,
    key: Seq<char>,
    value: T,
    g: int,
    name: Seq<char>,
)
    requires
        store_wf(v),
        0 <= frame < v.len(),
        g < frame,
    ensures
        lookup(defined(v, frame, key, value), g, name) == lookup(v, g, name),
    decreases g,
{
    let nv = defined(v, frame, key, value);
    if 0 <= g {
        assert(nv[g] == v[g]);
        match v[g].enclosing {
            Some(p) => {
                if p < g {
                    lemma_define_keeps_outer(v, frame, key, value, p as int, name);
                }
            },
            None => {},
        }
    }
}

/// Adding a scope changes no lookup from the existing ones.
pub proof fn lemma_push_keeps<T>(v: Seq<FrameView<T>>, f: FrameView<T>, g: int, name: Seq<char>)
    requires
        g < v.len(),
    ensures
        lookup(v.push(f), g, name) == lookup(v, g, name),
    decreases g,
{
    if 0 <= g {
        assert(v.push(f)[g] == v[g]);
        match v[g].enclosing {
            Some(p) => {
                if p < g {
                    lemma_push_keeps(v, f, p as int, name);
                }
            },
            None => {},
        }
    }
}

/// A new enclosed scope sees every name of the scope around it, with the
/// same value.
pub proof fn lemma_enclose_inherits<T>(v: Seq<FrameView<T>>, frame: usize, name: Seq<char>)
    requires
        store_wf(v),
        frame < v.len(),
    ensures
        lookup(v.push(fresh(Some(frame))), v.len() as int, name) == lookup(v, frame as int, name),
{
    let nv = v.push(fresh(Some(frame)));
    assert(nv[v.len() as int].keys.len() == 0);
    assert(local_value(nv[v.len() as int], name) is None);
    lemma_push_keeps(v, fresh(Some(frame)), frame as int, name);
}

pub proof fn lemma_owner_bound<T>(v: Seq<FrameView<T>>, frame: int, key: Seq<char>)
    ensures
        owner(v, frame, key) == -1 || owner(v, frame, key) <= frame,
        owner(v, frame, key) >= 0 ==> 0 <= owner(v, frame, key) < v.len() && local_value(
            v[owner(v, frame, key)],
            key,
        ) is Some,
    decreases frame,
{
    if 0 <= frame < v.len() && local_value(v[frame], key) is None {
        match v[frame].enclosing {
            Some(p) => {
                if p < frame {
                    lemma_owner_bound(v, p as int, key);
                }
            },
            None => {},
        }
    }
}

/// After a successful assignment, the name has the assigned value as seen
/// from the scope it was assigned from.
pub proof fn lemma_get_after_assign<T>(v: Seq<FrameView<T>>, frame: int, key: Seq<char>, value: T)
    requires
        store_wf(v),
        owner(v, frame, key) >= 0,
    ensures
        lookup(assigned(v, frame, key, value), frame, key) == Some(value),
    decreases frame,
{
    lemma_owner_bound(v, frame, key);
    let o = owner(v, frame, key);
    let nv = assigned(v, frame, key, value);
    if local_value(v[frame], key) is Some {
        assert(o == frame);
        lemma_key_index(v[frame].keys, key);
        assert(nv[frame].keys == v[frame].keys);
    } else {
        let p = v[frame].enclosing->0;
        assert(p < frame);
        lemma_owner_bound(v, p as int, key);
        assert(o == owner(v, p as int, key));
        assert(nv[frame] == v[frame]);
        lemma_get_after_assign(v, p as int, key, value);
        assert(assigned(v, p as int, key, value) == nv);
    }
}

/// How many scopes out from `frame` a lookup of `key` finds it, or -1.
pub open spec fn nearest_distance<T>(v: Seq<FrameView<T>>, frame: int, key: Seq<char>) -> int
    decreases frame,
{
    if frame < 0 || frame >= v.len() {
        -1
    } else if local_value(v[frame], key) is Some {
        0
    } else {
        match v[frame].enclosing {
            Some(p) => if p < frame {
                let n = nearest_distance(v, p as int, key);
                if n >= 0 {
                    n + 1
                } else {
                    -1
                }
            } else {
                -1
            },
            None => -1,
        }
    }
}

/// Lookups from a scope below `bound` only read scopes below `bound`.
proof fn lemma_lookup_at_below<T>(
    v: Seq<FrameView<T>>,
    w: Seq<FrameView<T>>,
    bound: int,
    frame: int,
    key: Seq<char>,
    d: nat,
)
    requires
        store_wf(v),
        v.len() == w.len(),
        frame < bound,
        forall|g: int| 0 <= g < bound ==> #[trigger] w[g] == v[g],
    ensures
        lookup_at(w, frame, key, d) == lookup_at(v, frame, key, d),
    decreases d,
{
    if 0 <= frame < v.len() && d > 0 {
        assert(w[frame] == v[frame]);
        match v[frame].enclosing {
            Some(p) => {
                assert(p < frame);
                lemma_lookup_at_below(v, w, bound, p as int, key, (d - 1) as nat);
            },
            None => {},
        }
    }
}

/// An assignment reaches the nearest definition of the name: the name is
/// defined at distance `nearest_distance` from `frame` and at no smaller
/// distance, it has the assigned value there afterwards, and every other
/// name at every distance, and the name at every other distance, keep
/// their values.
pub proof fn law_assign_nearest<T>(
    v: Seq<FrameView<T>>,
    frame: int,
    key: Seq<char>,
    value: T,
    k2: Seq<char>,
    d: nat,
)
    requires
        store_wf(v),
        owner(v, frame, key) >= 0,
    ensures
        nearest_distance(v, frame, key) >= 0,
        lookup_at(v, frame, key, nearest_distance(v, frame, key) as nat) is Some,
        forall|e: nat|
            e < nearest_distance(v, frame, key) ==> #[trigger] lookup_at(v, frame, key, e) is None,
        lookup_at(assigned(v, frame, key, value), frame, key, nearest_distance(v, frame, key) as nat)
            == Some(value),
        k2 != key || d != nearest_distance(v, frame, key) ==> lookup_at(
            assigned(v, frame, key, value),
            frame,
            k2,
            d,
        ) == lookup_at(v, frame, k2, d),
    decreases frame,
{
    lemma_owner_bound(v, frame, key);
    let o = owner(v, frame, key);
    let nv = assigned(v, frame, key, value);
    if local_value(v[frame], key) is Some {
        assert(o == frame);
        lemma_key_index(v[frame].keys, key);
        lemma_key_index(v[frame].keys, k2);
        assert(nv[frame].keys == v[frame].keys);
        if d > 0 {
            match v[frame].enclosing {
                Some(p) => {
                    assert(p < frame);
                    lemma_lookup_at_below(v, nv, frame, p as int, k2, (d - 1) as nat);
                },
                None => {},
            }
        }
    } else {
        let p = v[frame].enclosing->0;
        assert(p < frame);
        lemma_owner_bound(v, p as int, key);
        assert(o == owner(v, p as int, key));
        assert(nv[frame] == v[frame]);
        assert(assigned(v, p as int, key, value) == nv);
        let dd: nat = if d > 0 { (d - 1) as nat } else { 0 };
        law_assign_nearest(v, p as int, key, value, k2, dd);
        let n = nearest_distance(v, p as int, key);
        assert forall|e: nat| e < nearest_distance(v, frame, key) implies #[trigger] lookup_at(
            v,
            frame,
            key,
            e,
        ) is None by {
            if e > 0 {
                assert(lookup_at(v, p as int, key, (e - 1) as nat) is None);
            }
        }
    }
}

impl<T> Inner<T> {
    pub open spec fn view(&self) -> FrameView<T> {
        FrameView {
            enclosing: self.enclosing,
            keys: self.keys@.map_values(|k: Vec<char>| k@),
            values: self.values@,
        }
    }
}

impl<T> Environments<T> {
    pub open spec fn view(&self) -> Seq<FrameView<T>> {
        self.frames@.map_values(|f: Inner<T>| f.view())
    }

    pub open spec fn wf(&self) -> bool {
        store_wf(self.view())
    }

    /// An empty store.
    pub fn new() -> (r: Self)
        ensures
            r.view() == Seq::<FrameView<T>>::empty(),
            r.wf(),
    {
        let r = Environments { frames: Vec::new() };
        assert(r.view() =~= Seq::<FrameView<T>>::empty());
        r
    }

    /// The number of scopes in the store.
    pub fn len(&self) -> (r: usize)
        ensures
            r == self.view().len(),
    {
        self.frames.len()
    }

    fn push_frame(&mut self, enclosing: Option<usize>) -> (r: usize)
        requires
            old(self).wf(),
            old(self).view().len() < usize::MAX,
            enclosing matches Some(p) ==> p < old(self).view().len(),
        ensures
            final(self).wf(),
            final(self).view() == old(self).view().push(fresh(enclosing)),
            r == old(self).view().len(),
    {
        let r = self.frames.len();
        self.frames.push(Inner { enclosing, keys: Vec::new(), values: Vec::new() });
        proof {
            assert(self.frames@.last().view().keys =~= Seq::<Seq<char>>::empty());
            assert(self.frames@.last().view().values =~= Seq::<T>::empty());
            assert(self.frames@.last().view() == fresh::<T>(enclosing));
            assert(self.view() =~= old(self).view().push(fresh(enclosing)));
        }
        r
    }
}

impl<T> Inner<T> {
    /// The position of the most recent definition of `key` in this scope.
    fn find(&self, key: &Vec<char>) -> (r: Option<usize>)
        ensures
            r matches Some(k) ==> key_index(self.view().keys, key@) == k && k < self.keys.len(),
            r is None ==> key_index(self.view().keys, key@) == -1,
    {
        let ghost ks = self.view().keys;
        let mut i = self.keys.len();
        assert(ks.subrange(0, i as int) =~= ks);
        while i > 0
            invariant
                i <= self.keys.len(),
                ks == self.view().keys,
                key_index(ks, key@) == key_index(ks.subrange(0, i as int), key@),
            decreases i,
        {
            let ghost prefix = ks.subrange(0, i as int);
            assert(prefix.last() == self.keys@[i - 1]@);
            if chars_eq(&self.keys[i - 1], key) {
                return Some(i - 1);
            }
            assert(prefix.drop_last() =~= ks.subrange(0, i - 1));
            i = i - 1;
        }
        None
    }
}

impl<T: Copy> Inner<T> {
    /// The value of `key` in scope `frame` itself.
    fn get_local(envs: &Environments<T>, frame: usize, key: &Vec<char>) -> (r: Option<T>)
        requires
            envs.wf(),
            frame < envs.view().len(),
        ensures
            r == local_value(envs.view()[frame as int], key@),
    {
        let f = &envs.frames[frame];
        assert(envs.view()[frame as int] == f.view());
        match f.find(key) {
            Some(k) => Some(f.values[k]),
            None => None,
        }
    }

    /// The value of `key` as seen from scope `frame`.
    pub fn get(envs: &Environments<T>, frame: usize, key: &Vec<char>) -> (r: Option<T>)
        requires
            envs.wf(),
            frame < envs.view().len(),
        ensures
            r == lookup(envs.view(), frame as int, key@),
    {
        let mut f = frame;
        loop
            invariant
                envs.wf(),
                f < envs.view().len(),
                lookup(envs.view(), f as int, key@) == lookup(envs.view(), frame as int, key@),
            decreases f,
        {
            match Inner::get_local(envs, f, key) {
                Some(x) => {
                    return Some(x);
                },
                None => {},
            }
            let ghost fv = envs.view()[f as int];
            assert(fv.enclosing == envs.frames@[f as int].enclosing);
            match envs.frames[f].enclosing {
                Some(p) => {
                    f = p;
                },
                None => {
                    return None;
                },
            }
        }
    }

    /// The value of `key` in the scope `distance` steps out from `frame`.
    pub fn get_at(envs: &Environments<T>, frame: usize, key: &Vec<char>, distance: usize) -> (r:
        Option<T>)
        requires
            envs.wf(),
            frame < envs.view().len(),
        ensures
            r == lookup_at(envs.view(), frame as int, key@, distance as nat),
    {
        let mut f = frame;
        let mut d = distance;
        while d > 0
            invariant
                envs.wf(),
                f < envs.view().len(),
                lookup_at(envs.view(), f as int, key@, d as nat) == lookup_at(
                    envs.view(),
                    frame as int,
                    key@,
                    distance as nat,
                ),
            decreases d,
        {
            let ghost fv = envs.view()[f as int];
            assert(fv.enclosing == envs.frames@[f as int].enclosing);
            match envs.frames[f].enclosing {
                Some(p) => {
                    f = p;
                    d = d - 1;
                },
                None => {
                    return None;
                },
            }
        }
        Inner::get_local(envs, f, key)
    }

    /// Sets the definition of `key` that a lookup from `frame` finds;
    /// fails, changing nothing, when there is none.
    pub fn assign(envs: &mut Environments<T>, frame: usize, key: &Vec<char>, value: T) -> (r: Result<
        (),
        (),
    >)
        requires
            old(envs).wf(),
            frame < old(envs).view().len(),
        ensures
            final(envs).wf(),
            final(envs).view().len() == old(envs).view().len(),
            r is Ok <==> owner(old(envs).view(), frame as int, key@) >= 0,
            r is Ok ==> final(envs).view() == assigned(old(envs).view(), frame as int, key@, value),
            r is Err ==> final(envs).view() == old(envs).view(),
    {
        let ghost v = envs.view();
        let mut f = frame;
        loop
            invariant
                envs.wf(),
                envs.view() == v,
                v == old(envs).view(),
                f < v.len(),
                owner(v, f as int, key@) == owner(v, frame as int, key@),
            decreases f,
        {
            assert(v[f as int] == envs.frames@[f as int].view());
            match envs.frames[f].find(key) {
                Some(k) => {
                    assert(v[f as int].keys.len() == v[f as int].values.len());
                    assert(local_value(v[f as int], key@) is Some);
                    assert(owner(v, f as int, key@) == f);
                    let fr = &mut envs.frames[f];
                    fr.values.set(k, value);
                    proof {
                        let nv = assigned(v, frame as int, key@, value);
                        assert forall|j: int| 0 <= j < v.len() implies envs.view()[j] == nv[j] by {
                            if j == f {
                                assert(envs.frames@[j].view().values =~= nv[j].values);
                                assert(envs.frames@[j].view().keys =~= nv[j].keys);
                            }
                        }
                        assert(envs.view() =~= nv);
                    }
                    return Ok(());
                },
                None => {},
            }
            match envs.frames[f].enclosing {
                Some(p) => {
                    f = p;
                },
                None => {
                    return Err(());
                },
            }
        }
    }
}

impl Environment {
    /// A new outermost scope in the store.
    pub fn new<T>(envs: &mut Environments<T>) -> (r: Environment)
        requires
            old(envs).wf(),
            old(envs).view().len() < usize::MAX,
        ensures
            final(envs).wf(),
            final(envs).view() == old(envs).view().push(fresh(None)),
            r.index == old(envs).view().len(),
    {
        let index = envs.push_frame(None);
        Environment { index }
    }

    /// A new scope enclosed by this one.
    pub fn enclose<T>(&self, envs: &mut Environments<T>) -> (r: Environment)
        requires
            old(envs).wf(),
            self.index < old(envs).view().len(),
            old(envs).view().len() < usize::MAX,
        ensures
            final(envs).wf(),
            final(envs).view() == old(envs).view().push(fresh(Some(self.index))),
            r.index == old(envs).view().len(),
    {
        let index = envs.push_frame(Some(self.index));
        Environment { index }
    }

    /// Defines `key` as `value` in this scope, replacing an earlier
    /// definition of the same name here.
    pub fn define<T>(&self, envs: &mut Environments<T>, key: Vec<char>, value: T)
        requires
            old(envs).wf(),
            self.index < old(envs).view().len(),
        ensures
            final(envs).wf(),
            final(envs).view() == defined(old(envs).view(), self.index as int, key@, value),
    {
        let ghost v = envs.view();
        let ghost kv = key@;
        let fr = &mut envs.frames[self.index];
        fr.keys.push(key);
        fr.values.push(value);
        proof {
            let nv = defined(v, self.index as int, kv, value);
            assert forall|j: int| 0 <= j < v.len() implies envs.view()[j] == nv[j] by {
                if j == self.index {
                    assert(envs.frames@[j].view().values =~= nv[j].values);
                    assert(envs.frames@[j].view().keys =~= nv[j].keys);
                }
            }
            assert(envs.view() =~= nv);
        }
    }

    /// The value of `key` here or in the scopes around.
    pub fn get<T: Copy>(&self, envs: &Environments<T>, key: &Vec<char>) -> (r: Option<T>)
        requires
            envs.wf(),
            self.index < envs.view().len(),
        ensures
            r == lookup(envs.view(), self.index as int, key@),
    {
        Inner::get(envs, self.index, key)
    }

    /// The value of `key` in the scope `distance` steps out.
    pub fn get_at<T: Copy>(&self, envs: &Environments<T>, key: &Vec<char>, distance: usize) -> (r:
        Option<T>)
        requires
            envs.wf(),
            self.index < envs.view().len(),
        ensures
            r == lookup_at(envs.view(), self.index as int, key@, distance as nat),
    {
        Inner::get_at(envs, self.index, key, distance)
    }

    /// Sets the visible definition of `key`; fails when there is none.
    pub fn assign<T: Copy>(&self, envs: &mut Environments<T>, key: &Vec<char>, value: T) -> (r:
        Result<(), ()>)
        requires
            old(envs).wf(),
            self.index < old(envs).view().len(),
        ensures
            final(envs).wf(),
            final(envs).view().len() == old(envs).view().len(),
            r is Ok <==> owner(old(envs).view(), self.index as int, key@) >= 0,
            r is Ok ==> final(envs).view() == assigned(
                old(envs).view(),
                self.index as int,
                key@,
                value,
            ),
            r is Err ==> final(envs).view() == old(envs).view(),
    {
        Inner::assign(envs, self.index, key, value)
    }
}

} // verus!
