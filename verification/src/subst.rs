//! Pattern variables and substitutions from variables to e-class ids.

use vstd::prelude::*;

use crate::{ColorId, Id};

verus! {

/// Views a string slice as its characters (`str::chars`).
#[verifier::external_body]
pub(crate) fn str_chars(s: &str) -> (r: Vec<char>)
    ensures
        r@ == s@,
{
    s.chars().collect()
}

/// Builds a string from characters (`String::from_iter`).
#[verifier::external_body]
pub(crate) fn string_from_chars(cs: &[char]) -> (r: String)
    ensures
        r@ == cs@,
{
    cs.iter().collect()
}

/// Whether some text is well-formed variable syntax: a leading `?` and at
/// least one more character.
pub open spec fn is_var_text(s: Seq<char>) -> bool {
    s.len() >= 2 && s[0] == '?'
}

/// A variable for use in patterns or substitutions. It parses only from
/// text with a leading `?`; its view is its text.
#[derive(Debug, Hash)]
pub struct Var {
    name: String,
}

impl View for Var {
    type V = Seq<char>;

    closed spec fn view(&self) -> Seq<char> {
        self.name@
    }
}

impl Clone for Var {
    fn clone(&self) -> (r: Self)
        ensures
            r@ == self@,
    {
        Var { name: self.name.clone() }
    }
}

impl PartialEq for Var {
    fn eq(&self, other: &Self) -> (r: bool) {
        self.name == other.name
    }
}

impl Eq for Var {}

impl vstd::std_specs::cmp::PartialEqSpecImpl for Var {
    open spec fn obeys_eq_spec() -> bool {
        true
    }

    open spec fn eq_spec(&self, other: &Self) -> bool {
        self@ == other@
    }
}

/// The error of parsing a [`Var`].
#[derive(Debug)]
pub enum VarParseError {
    /// The text does not start with `?` followed by at least one character.
    MissingQuestionMark(String),
}

impl Var {
    /// Parses a variable: succeeds exactly on text with a leading `?` and at
    /// least one more character; the error carries the text.
    pub fn from_str(s: &str) -> (r: Result<Var, VarParseError>)
        ensures
            r is Ok <==> is_var_text(s@),
            r matches Ok(v) ==> v@ == s@,
            r matches Err(VarParseError::MissingQuestionMark(t)) ==> t@ == s@,
    {
        let cs = str_chars(s);
        if cs.len() >= 2 && cs[0] == '?' {
            Ok(Var { name: string_from_chars(cs.as_slice()) })
        } else {
            Err(VarParseError::MissingQuestionMark(string_from_chars(cs.as_slice())))
        }
    }

    /// Builds a variable from already validated text.
    pub(crate) fn from_chars(cs: &[char]) -> (r: Var)
        requires
            is_var_text(cs@),
        ensures
            r@ == cs@,
    {
        Var { name: string_from_chars(cs) }
    }

    /// The text of this variable.
    pub fn to_string(&self) -> (r: String)
        ensures
            r@ == self@,
    {
        self.name.clone()
    }

    /// Whether two variables are the same variable.
    pub fn same(&self, other: &Var) -> (r: bool)
        ensures
            r == (self@ == other@),
    {
        self.name == other.name
    }
}

/// The id bound to a variable in a list of bindings: the first binding of
/// that variable, if any.
pub open spec fn binding_of(s: Seq<(Seq<char>, Id)>, v: Seq<char>) -> Option<Id>
    decreases s.len(),
{
    if s.len() == 0 {
        None
    } else if s[0].0 == v {
        Some(s[0].1)
    } else {
        binding_of(s.drop_first(), v)
    }
}

/// The bindings after `v` is bound to `id`: the first binding of `v` is
/// replaced in place, or a new binding is appended if there is none.
pub open spec fn rebind(s: Seq<(Seq<char>, Id)>, v: Seq<char>, id: Id) -> Seq<(Seq<char>, Id)>
    decreases s.len(),
{
    if s.len() == 0 {
        seq![(v, id)]
    } else if s[0].0 == v {
        s.update(0, (v, id))
    } else {
        seq![s[0]] + rebind(s.drop_first(), v, id)
    }
}

/// Rebinding a variable first bound at index `i` replaces that binding.
pub proof fn lemma_rebind_at(s: Seq<(Seq<char>, Id)>, v: Seq<char>, id: Id, i: int)
    requires
        0 <= i < s.len(),
        s[i].0 == v,
        forall|j: int| 0 <= j < i ==> #[trigger] s[j].0 != v,
    ensures
        rebind(s, v, id) == s.update(i, (v, id)),
    decreases i,
{
    if i > 0 {
        lemma_rebind_at(s.drop_first(), v, id, i - 1);
        assert(rebind(s, v, id) =~= s.update(i, (v, id)));
    }
}

/// Rebinding an unbound variable appends a binding.
pub proof fn lemma_rebind_absent(s: Seq<(Seq<char>, Id)>, v: Seq<char>, id: Id)
    requires
        forall|j: int| 0 <= j < s.len() ==> #[trigger] s[j].0 != v,
    ensures
        rebind(s, v, id) == s.push((v, id)),
    decreases s.len(),
{
    if s.len() > 0 {
        lemma_rebind_absent(s.drop_first(), v, id);
        assert(rebind(s, v, id) =~= s.push((v, id)));
    } else {
        assert(rebind(s, v, id) =~= s.push((v, id)));
    }
}

/// The bindings after merging the first `n` bindings of `other` into `base`:
/// each binding of `other` whose variable `base` does not bind is added.
pub open spec fn merge_upto(base: Seq<(Seq<char>, Id)>, other: Seq<(Seq<char>, Id)>, n: nat) -> Seq<
    (Seq<char>, Id),
>
    decreases n,
{
    if n == 0 {
        base
    } else {
        let acc = merge_upto(base, other, (n - 1) as nat);
        let b = other[n - 1];
        if binding_of(base, b.0) is Some {
            acc
        } else {
            rebind(acc, b.0, b.1)
        }
    }
}

/// No variable is bound twice.
pub open spec fn distinct_vars(s: Seq<(Seq<char>, Id)>) -> bool {
    forall|i: int, j: int| 0 <= i < j < s.len() ==> #[trigger] s[i].0 != #[trigger] s[j].0
}

/// The binding of `v` in a list where it occurs at index `i` and nowhere
/// before.
pub proof fn lemma_binding_at(s: Seq<(Seq<char>, Id)>, v: Seq<char>, i: int)
    requires
        0 <= i < s.len(),
        s[i].0 == v,
        forall|j: int| 0 <= j < i ==> #[trigger] s[j].0 != v,
    ensures
        binding_of(s, v) == Some(s[i].1),
    decreases i,
{
    if i > 0 {
        lemma_binding_at(s.drop_first(), v, i - 1);
    }
}

/// A list where `v` does not occur binds nothing to it.
pub proof fn lemma_binding_absent(s: Seq<(Seq<char>, Id)>, v: Seq<char>)
    requires
        forall|j: int| 0 <= j < s.len() ==> #[trigger] s[j].0 != v,
    ensures
        binding_of(s, v) is None,
    decreases s.len(),
{
    if s.len() > 0 {
        lemma_binding_absent(s.drop_first(), v);
    }
}

/// The binding of a variable after a binding is appended.
pub proof fn lemma_binding_push(s: Seq<(Seq<char>, Id)>, b: (Seq<char>, Id), v: Seq<char>)
    ensures
        binding_of(s.push(b), v) == (if binding_of(s, v) is Some {
            binding_of(s, v)
        } else if b.0 == v {
            Some(b.1)
        } else {
            None
        }),
    decreases s.len(),
{
    if s.len() > 0 {
        assert(s.push(b)[0] == s[0]);
        assert(s.push(b).drop_first() =~= s.drop_first().push(b));
        lemma_binding_push(s.drop_first(), b, v);
    } else {
        assert(s.push(b)[0] == b);
        assert(s.push(b).drop_first() =~= Seq::<(Seq<char>, Id)>::empty());
        assert(binding_of(Seq::<(Seq<char>, Id)>::empty(), v) is None);
    }
}

/// The binding of a variable after `w` is bound to `id`.
pub proof fn lemma_binding_rebind(s: Seq<(Seq<char>, Id)>, w: Seq<char>, id: Id, v: Seq<char>)
    ensures
        binding_of(rebind(s, w, id), v) == (if v == w {
            Some(id)
        } else {
            binding_of(s, v)
        }),
    decreases s.len(),
{
    if s.len() > 0 && s[0].0 != w {
        lemma_binding_rebind(s.drop_first(), w, id, v);
        assert((seq![s[0]] + rebind(s.drop_first(), w, id))[0] == s[0]);
        assert((seq![s[0]] + rebind(s.drop_first(), w, id)).drop_first() =~= rebind(s.drop_first(), w, id));
    } else if s.len() > 0 {
        assert(s.update(0, (w, id)).drop_first() =~= s.drop_first());
    } else {
        assert(seq![(w, id)].drop_first() =~= Seq::<(Seq<char>, Id)>::empty());
        assert(binding_of(Seq::<(Seq<char>, Id)>::empty(), v) is None);
        assert(binding_of(s, v) is None);
    }
}

/// Rebinding keeps the variables distinct.
pub proof fn lemma_rebind_distinct(s: Seq<(Seq<char>, Id)>, w: Seq<char>, id: Id)
    requires
        distinct_vars(s),
    ensures
        distinct_vars(rebind(s, w, id)),
{
    if exists|i: int| 0 <= i < s.len() && #[trigger] s[i].0 == w {
        let i = choose|i: int| 0 <= i < s.len() && #[trigger] s[i].0 == w;
        lemma_rebind_at(s, w, id, i);
    } else {
        lemma_rebind_absent(s, w, id);
    }
}

/// A substitution mapping variables to e-class ids, under an optional color.
///
/// Its view is the list of bindings, in insertion order.
#[derive(Debug)]
pub struct Subst {
    vec: Vec<(Var, Id)>,
    color: Option<ColorId>,
}

impl View for Subst {
    type V = Seq<(Seq<char>, Id)>;

    closed spec fn view(&self) -> Seq<(Seq<char>, Id)> {
        self.vec@.map_values(|p: (Var, Id)| (p.0@, p.1))
    }
}

impl Subst {
    /// No variable is bound twice.
    #[verifier::type_invariant]
    spec fn inv(self) -> bool {
        distinct_vars(self@)
    }

    /// The color this substitution was found under (`None` for black).
    pub closed spec fn color_spec(&self) -> Option<ColorId> {
        self.color
    }

    /// The id bound to `v`, if any.
    pub open spec fn lookup(&self, v: Seq<char>) -> Option<Id> {
        binding_of(self@, v)
    }

    /// Creates an empty substitution.
    pub fn with_capacity(capacity: usize) -> (r: Self)
        ensures
            r@ == Seq::<(Seq<char>, Id)>::empty(),
            r.color_spec() is None,
            distinct_vars(r@),
    {
        let vec: Vec<(Var, Id)> = Vec::with_capacity(capacity);
        proof {
            assert(vec@.map_values(|p: (Var, Id)| (p.0@, p.1)) =~= Seq::<(Seq<char>, Id)>::empty());
        }
        let r = Subst { vec, color: None };
        proof {
            assert(r@ =~= Seq::<(Seq<char>, Id)>::empty());
        }
        r
    }

    /// Creates an empty substitution under `color`.
    pub fn colored_with_capacity(capacity: usize, color: Option<ColorId>) -> (r: Self)
        ensures
            r@ == Seq::<(Seq<char>, Id)>::empty(),
            r.color_spec() == color,
            distinct_vars(r@),
    {
        let vec: Vec<(Var, Id)> = Vec::with_capacity(capacity);
        proof {
            assert(vec@.map_values(|p: (Var, Id)| (p.0@, p.1)) =~= Seq::<(Seq<char>, Id)>::empty());
        }
        let r = Subst { vec, color };
        proof {
            assert(r@ =~= Seq::<(Seq<char>, Id)>::empty());
        }
        r
    }

    /// A copy of this substitution.
    pub fn duplicate(&self) -> (r: Self)
        ensures
            r@ == self@,
            r.color_spec() == self.color_spec(),
            distinct_vars(r@),
    {
        proof {
            use_type_invariant(self);
        }
        let mut vec: Vec<(Var, Id)> = Vec::new();
        let mut i: usize = 0;
        while i < self.vec.len()
            invariant
                0 <= i <= self.vec@.len(),
                vec@.len() == i,
                forall|j: int| 0 <= j < i ==> (#[trigger] vec@[j]).0@ == self.vec@[j].0@ && vec@[j].1
                    == self.vec@[j].1,
            decreases self.vec@.len() - i,
        {
            let v = self.vec[i].0.clone();
            vec.push((v, self.vec[i].1));
            i = i + 1;
        }
        proof {
            assert(vec@.map_values(|p: (Var, Id)| (p.0@, p.1)) =~= self@);
        }
        let r = Subst { vec, color: self.color };
        r
    }

    /// Binds `var` to `id`. If `var` was bound, its binding is replaced in
    /// place and the old id returned; otherwise the binding is appended.
    pub fn insert(&mut self, var: Var, id: Id) -> (r: Option<Id>)
        ensures
            r == old(self).lookup(var@),
            final(self).color_spec() == old(self).color_spec(),
            final(self)@ == rebind(old(self)@, var@, id),
            distinct_vars(final(self)@),
    {
        proof {
            use_type_invariant(&*self);
        }
        let ghost v0 = self@;
        let mut items: Vec<(Var, Id)> = Vec::new();
        proof {
            assert(items@.map_values(|p: (Var, Id)| (p.0@, p.1)) =~= Seq::<(Seq<char>, Id)>::empty());
        }
        std::mem::swap(&mut items, &mut self.vec);
        let ghost w = var@;
        proof {
            lemma_rebind_distinct(v0, w, id);
        }
        let mut i: usize = 0;
        while i < items.len()
            invariant
                items@.map_values(|p: (Var, Id)| (p.0@, p.1)) == v0,
                0 <= i <= items@.len(),
                w == var@,
                v0 == old(self)@,
                self.color == old(self).color,
                distinct_vars(v0),
                distinct_vars(rebind(v0, w, id)),
                forall|j: int| 0 <= j < i ==> #[trigger] v0[j].0 != w,
            decreases items@.len() - i,
        {
            let same = items[i].0.same(&var);
            proof {
                assert(v0[i as int] == (items@[i as int].0@, items@[i as int].1));
            }
            if same {
                let old_id = items[i].1;
                proof {
                    lemma_binding_at(v0, w, i as int);
                    lemma_rebind_at(v0, w, id, i as int);
                }
                items.set(i, (var, id));
                proof {
                    assert(items@.map_values(|p: (Var, Id)| (p.0@, p.1)) =~= v0.update(i as int, (w, id)));
                }
                self.vec = items;
                return Some(old_id);
            }
            i = i + 1;
        }
        proof {
            lemma_binding_absent(v0, w);
            lemma_rebind_absent(v0, w, id);
        }
        items.push((var, id));
        proof {
            assert(items@.map_values(|p: (Var, Id)| (p.0@, p.1)) =~= v0.push((w, id)));
        }
        self.vec = items;
        None
    }

    /// The `i`-th binding, in insertion order.
    pub fn binding_at(&self, i: usize) -> (r: (&Var, Id))
        requires
            i < self@.len(),
        ensures
            r.0@ == self@[i as int].0,
            r.1 == self@[i as int].1,
    {
        (&self.vec[i].0, self.vec[i].1)
    }

    /// The id bound to `var`, if any.
    pub fn get(&self, var: &Var) -> (r: Option<&Id>)
        ensures
            r matches Some(x) ==> self.lookup(var@) == Some(*x),
            r is None ==> self.lookup(var@) is None,
            distinct_vars(self@),
    {
        proof {
            use_type_invariant(self);
        }
        let mut i: usize = 0;
        while i < self.vec.len()
            invariant
                0 <= i <= self.vec@.len(),
                forall|j: int| 0 <= j < i ==> #[trigger] self@[j].0 != var@,
                distinct_vars(self@),
            decreases self.vec@.len() - i,
        {
            let same = self.vec[i].0.same(var);
            proof {
                assert(self@[i as int] == (self.vec@[i as int].0@, self.vec@[i as int].1));
            }
            if same {
                proof {
                    lemma_binding_at(self@, var@, i as int);
                }
                return Some(&self.vec[i].1);
            }
            i = i + 1;
        }
        proof {
            lemma_binding_absent(self@, var@);
        }
        None
    }

    /// The id bound to `var`, which must be bound.
    pub fn index(&self, var: &Var) -> (r: Id)
        requires
            self.lookup(var@) is Some,
        ensures
            self.lookup(var@) == Some(r),
    {
        *self.get(var).unwrap()
    }

    /// The color this substitution was found under.
    pub fn color(&self) -> (r: Option<ColorId>)
        ensures
            r == self.color_spec(),
    {
        self.color
    }

    /// Merges `sub2` into a copy of this substitution: the variables that
    /// this one does not bind are bound as in `sub2`. The two must not
    /// disagree on color or on any shared variable.
    pub fn merge(&self, sub2: Subst) -> (r: Subst)
        requires
            self.color_spec() is None || sub2.color_spec() is None || self.color_spec()
                == sub2.color_spec(),
            forall|j: int|
                0 <= j < sub2@.len() && (#[trigger] self.lookup(sub2@[j].0)) is Some
                    ==> self.lookup(sub2@[j].0) == Some(sub2@[j].1),
        ensures
            r@ == merge_upto(self@, sub2@, sub2@.len()),
            r.color_spec() == (if self.color_spec() is None {
                sub2.color_spec()
            } else {
                self.color_spec()
            }),
            distinct_vars(r@),
            forall|v: Seq<char>|
                #[trigger] r.lookup(v) == (if self.lookup(v) is Some {
                    self.lookup(v)
                } else {
                    sub2.lookup(v)
                }),
    {
        proof {
            use_type_invariant(self);
            use_type_invariant(&sub2);
        }
        let mut new = self.duplicate();
        if new.color.is_none() && sub2.color.is_some() {
            new.color = sub2.color;
        }
        let ghost other = sub2@;
        let Subst { vec: items, color: _ } = sub2;
        let mut i: usize = 0;
        while i < items.len()
            invariant
                0 <= i <= items@.len(),
                other == items@.map_values(|p: (Var, Id)| (p.0@, p.1)),
                new@ == merge_upto(self@, other, i as nat),
                distinct_vars(other),
                distinct_vars(new@),
                forall|v: Seq<char>|
                    #[trigger] binding_of(new@, v) == (if binding_of(self@, v) is Some {
                        binding_of(self@, v)
                    } else {
                        binding_of(other.take(i as int), v)
                    }),
                new.color == (if self.color is None {
                    sub2.color
                } else {
                    self.color
                }),
            decreases items@.len() - i,
        {
            let var = items[i].0.clone();
            let id = items[i].1;
            proof {
                assert(other[i as int] == (var@, id));
                assert(other.take(i + 1) =~= other.take(i as int).push(other[i as int]));
                assert forall|v: Seq<char>| #[trigger] binding_of(other.take(i + 1), v) == (if binding_of(
                    other.take(i as int),
                    v,
                ) is Some {
                    binding_of(other.take(i as int), v)
                } else if var@ == v {
                    Some(id)
                } else {
                    None
                }) by {
                    lemma_binding_push(other.take(i as int), other[i as int], v);
                }
                assert forall|j: int| 0 <= j < other.take(i as int).len() implies #[trigger] other.take(
                    i as int,
                )[j].0 != var@ by {
                    assert(other[j].0 != other[i as int].0);
                }
                lemma_binding_absent(other.take(i as int), var@);
            }
            let ghost wv = var@;
            match self.get(&var) {
                Some(_vid) => {},
                None => {
                    new.insert(var, id);
                    proof {
                        assert forall|v: Seq<char>| #[trigger] binding_of(new@, v) == (if binding_of(
                            self@,
                            v,
                        ) is Some {
                            binding_of(self@, v)
                        } else {
                            binding_of(other.take(i + 1), v)
                        }) by {
                            lemma_binding_rebind(merge_upto(self@, other, i as nat), wv, id, v);
                        }
                    }
                },
            }
            i = i + 1;
        }
        proof {
            assert(other.take(other.len() as int) =~= other);
        }
        new
    }

    /// The value of this substitution: its bindings and its color.
    pub open spec fn value(&self) -> (Seq<(Seq<char>, Id)>, Option<ColorId>) {
        (self@, self.color_spec())
    }

    /// Whether two substitutions hold the same bindings, in the same order,
    /// under the same color.
    pub fn same_as(&self, other: &Subst) -> (r: bool)
        ensures
            r == (self.value() == other.value()),
    {
        let same_color = match (self.color, other.color) {
            (None, None) => true,
            (Some(a), Some(b)) => a.0 == b.0,
            _ => false,
        };
        if !same_color || self.vec.len() != other.vec.len() {
            proof {
                if self.value() == other.value() {
                    assert(self@.len() == other@.len());
                }
            }
            return false;
        }
        let mut i: usize = 0;
        while i < self.vec.len()
            invariant
                0 <= i <= self.vec@.len(),
                self.vec@.len() == other.vec@.len(),
                same_color == (self.color_spec() == other.color_spec()),
                same_color,
                forall|j: int| 0 <= j < i ==> #[trigger] self@[j] == other@[j],
            decreases self.vec@.len() - i,
        {
            let a = &self.vec[i];
            let b = &other.vec[i];
            if !a.0.same(&b.0) || a.1.0 != b.1.0 {
                proof {
                    assert(self@[i as int] == (a.0@, a.1));
                    assert(other@[i as int] == (b.0@, b.1));
                    if self.value() == other.value() {
                        assert(self@[i as int] == other@[i as int]);
                    }
                }
                return false;
            }
            proof {
                assert(self@[i as int] == (a.0@, a.1));
                assert(other@[i as int] == (b.0@, b.1));
            }
            i = i + 1;
        }
        proof {
            assert(self@ =~= other@);
        }
        true
    }

    /// The number of bindings.
    pub fn len(&self) -> (r: usize)
        ensures
            r == self@.len(),
            distinct_vars(self@),
    {
        proof {
            use_type_invariant(self);
        }
        self.vec.len()
    }

    /// The text of this substitution: `{?x: 1, ?y: 2 color: None}`, the
    /// bindings in order and then the color's number or `None`.
    pub fn to_string(&self) -> (r: String)
        ensures
            r@ == subst_text(self.value()),
    {
        proof {
            reveal_strlit("{");
            reveal_strlit(": ");
            reveal_strlit(", ");
            reveal_strlit(" color: ");
            reveal_strlit("None");
            reveal_strlit("}");
        }
        let mut out = String::new();
        out.append("{");
        let mut i: usize = 0;
        while i < self.vec.len()
            invariant
                0 <= i <= self.vec@.len(),
                out@ == seq!['{'] + bindings_text(self@.subrange(0, i as int)),
            decreases self.vec@.len() - i,
        {
            proof {
                reveal_strlit(": ");
                reveal_strlit(", ");
            }
            let ghost before = out@;
            let (var, id) = (&self.vec[i].0, self.vec[i].1);
            if i > 0 {
                out.append(", ");
            }
            let ghost mid = out@;
            out.append(var.name.as_str());
            out.append(": ");
            let num = crate::u64_to_decimal(id.0 as u64);
            out.append(num.as_str());
            proof {
                assert(out@ =~= mid + binding_text((var@, id)));
                assert(mid == before + (if i > 0 { seq![',', ' '] } else { Seq::empty() }));
                let pre = self@.subrange(0, i as int);
                let now = self@.subrange(0, i + 1);
                assert(now.drop_last() =~= pre);
                assert(now.last() == self@[i as int]);
                assert(self@[i as int] == (var@, id));
                if i > 0 {
                    assert(out@ =~= seq!['{'] + (bindings_text(pre) + seq![',', ' '] + binding_text(now.last())));
                } else {
                    assert(pre.len() == 0);
                    assert(out@ =~= seq!['{'] + binding_text(now.last()));
                }
            }
            i = i + 1;
        }
        proof {
            assert(self@.subrange(0, self@.len() as int) =~= self@);
        }
        out.append(" color: ");
        match self.color {
            None => {
                out.append("None");
            },
            Some(c) => {
                let num = crate::u64_to_decimal(c.0 as u64);
                out.append(num.as_str());
            },
        }
        out.append("}");
        proof {
            assert(out@ =~= subst_text(self.value()));
        }
        out
    }
}

/// The text of one binding: `?x: 1`.
pub open spec fn binding_text(b: (Seq<char>, Id)) -> Seq<char> {
    b.0 + seq![':', ' '] + crate::decimal_text(b.1.0 as nat)
}

/// The bindings' texts joined by `, `.
pub open spec fn bindings_text(s: Seq<(Seq<char>, Id)>) -> Seq<char>
    decreases s.len(),
{
    if s.len() == 0 {
        Seq::empty()
    } else if s.len() == 1 {
        binding_text(s[0])
    } else {
        bindings_text(s.drop_last()) + seq![',', ' '] + binding_text(s.last())
    }
}

/// The text of a substitution's value.
pub open spec fn subst_text(v: (Seq<(Seq<char>, Id)>, Option<ColorId>)) -> Seq<char> {
    seq!['{'] + bindings_text(v.0) + seq![' ', 'c', 'o', 'l', 'o', 'r', ':', ' '] + match v.1 {
        None => seq!['N', 'o', 'n', 'e'],
        Some(c) => crate::decimal_text(c.index() as nat),
    } + seq!['}']
}

} // verus!

verus! {

/// Reading after writing: after binding `v` to `id`, `v` reads `id` and every
/// other variable reads what it read before.
pub proof fn law_rebind_then_lookup(s: Seq<(Seq<char>, Id)>, v: Seq<char>, id: Id, w: Seq<char>)
    ensures
        binding_of(rebind(s, v, id), v) == Some(id),
        w != v ==> binding_of(rebind(s, v, id), w) == binding_of(s, w),
    decreases s.len(),
{
    let r = rebind(s, v, id);
    if s.len() == 0 {
        assert(r[0] == (v, id));
        if w != v {
            assert(r.drop_first().len() == 0);
            assert(binding_of(r, w) == binding_of(r.drop_first(), w));
            assert(binding_of(r.drop_first(), w) is None);
        }
    } else if s[0].0 == v {
        assert(r[0] == (v, id));
        if w != v {
            assert(r.drop_first() =~= s.drop_first());
            assert(binding_of(r, w) == binding_of(r.drop_first(), w));
            assert(binding_of(s, w) == binding_of(s.drop_first(), w));
        }
    } else {
        law_rebind_then_lookup(s.drop_first(), v, id, w);
        assert(rebind(s, v, id)[0] == s[0]);
        assert(rebind(s, v, id).drop_first() =~= rebind(s.drop_first(), v, id));
    }
}

/// Rebinding keeps variables distinct.
pub proof fn law_rebind_distinct(s: Seq<(Seq<char>, Id)>, v: Seq<char>, id: Id)
    requires
        distinct_vars(s),
    ensures
        distinct_vars(rebind(s, v, id)),
{
    if exists|i: int| 0 <= i < s.len() && s[i].0 == v {
        let i = choose|i: int| 0 <= i < s.len() && s[i].0 == v;
        assert forall|j: int| 0 <= j < i implies #[trigger] s[j].0 != v by {
            assert(s[j].0 != s[i].0);
        }
        lemma_rebind_at(s, v, id, i);
    } else {
        lemma_rebind_absent(s, v, id);
        let r = s.push((v, id));
        assert forall|a: int, b: int| 0 <= a < b < r.len() implies #[trigger] r[a].0 != #[trigger] r[b].0 by {
            if b == s.len() {
                assert(s[a].0 != v);
            }
        }
    }
}

/// Merging keeps every binding of the first substitution, and adds those of
/// the second for the variables the first does not bind.
pub proof fn law_merge_lookup(a: Seq<(Seq<char>, Id)>, b: Seq<(Seq<char>, Id)>, w: Seq<char>, n: nat)
    requires
        n <= b.len(),
    ensures
        binding_of(merge_upto(a, b, n), w) == (if binding_of(a, w) is Some {
            binding_of(a, w)
        } else {
            binding_of(b.subrange(0, n as int).reverse(), w)
        }),
    decreases n,
{
    if n == 0 {
        assert(b.subrange(0, 0).reverse().len() == 0);
    } else {
        law_merge_lookup(a, b, w, (n - 1) as nat);
        let x = b[n - 1];
        let pre = b.subrange(0, n - 1).reverse();
        let cur = b.subrange(0, n as int).reverse();
        assert(cur =~= seq![x] + pre);
        assert(cur[0] == x);
        assert(cur.drop_first() =~= pre);
        if binding_of(a, x.0) is None {
            law_rebind_then_lookup(merge_upto(a, b, (n - 1) as nat), x.0, x.1, w);
        }
    }
}

} // verus!
