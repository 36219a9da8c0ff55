use vstd::prelude::*;
use crate::interpreter::{undefined_message, undefined_message_text, RuntimeError};
use crate::token::{Literal, Token, Val};

verus! {

/// One scope: its bindings as (name, value) pairs, each name at most once.
pub struct Scope {
    bindings: Vec<(String, Literal)>,
}

/// The map that a list of bindings denotes.
pub open spec fn bindings_map(b: Seq<(String, Literal)>) -> Map<Seq<char>, Val>
    decreases b.len(),
{
    if b.len() == 0 {
        Map::empty()
    } else {
        bindings_map(b.drop_last()).insert(b.last().0@, b.last().1@)
    }
}

/// No name is bound twice in one list of bindings.
pub open spec fn names_unique(b: Seq<(String, Literal)>) -> bool {
    forall|i: int, j: int| 0 <= i < j < b.len() ==> b[i].0@ != b[j].0@
}

proof fn lemma_bindings_map_at(b: Seq<(String, Literal)>, j: int)
    requires
        names_unique(b),
        0 <= j < b.len(),
    ensures
        bindings_map(b).contains_key(b[j].0@),
        bindings_map(b)[b[j].0@] == b[j].1@,
    decreases b.len(),
{
    if j < b.len() - 1 {
        lemma_bindings_map_at(b.drop_last(), j);
    }
}

proof fn lemma_bindings_map_absent(b: Seq<(String, Literal)>, k: Seq<char>)
    requires
        forall|j: int| 0 <= j < b.len() ==> b[j].0@ != k,
    ensures
        !bindings_map(b).contains_key(k),
    decreases b.len(),
{
    if b.len() > 0 {
        lemma_bindings_map_absent(b.drop_last(), k);
    }
}

proof fn lemma_bindings_map_update(b: Seq<(String, Literal)>, j: int, v: Literal)
    requires
        names_unique(b),
        0 <= j < b.len(),
    ensures
        bindings_map(b.update(j, (b[j].0, v))) == bindings_map(b).insert(b[j].0@, v@),
    decreases b.len(),
{
    let b2 = b.update(j, (b[j].0, v));
    if j == b.len() - 1 {
        assert(b2.drop_last() == b.drop_last());
        assert(bindings_map(b2) =~= bindings_map(b).insert(b[j].0@, v@));
    } else {
        assert(b2.drop_last() == b.drop_last().update(j, (b[j].0, v)));
        lemma_bindings_map_update(b.drop_last(), j, v);
        assert(b.last().0@ != b[j].0@);
        assert(bindings_map(b2) =~= bindings_map(b).insert(b[j].0@, v@));
    }
}

/// The innermost scope, counted from the global one at 0, that binds `k`.
pub open spec fn resolve(scopes: Seq<Map<Seq<char>, Val>>, k: Seq<char>) -> Option<int>
    decreases scopes.len(),
{
    if scopes.len() == 0 {
        None
    } else if scopes.last().contains_key(k) {
        Some(scopes.len() - 1)
    } else {
        resolve(scopes.drop_last(), k)
    }
}

/// The value that `k` has in a chain of scopes: the one of the innermost
/// scope that binds it.
pub open spec fn lookup(scopes: Seq<Map<Seq<char>, Val>>, k: Seq<char>) -> Option<Val> {
    match resolve(scopes, k) {
        Some(i) => Some(scopes[i][k]),
        None => None,
    }
}

/// The chain after `k` is given `v` in the innermost scope that binds it.
pub open spec fn reassign(scopes: Seq<Map<Seq<char>, Val>>, k: Seq<char>, v: Val) -> Seq<
    Map<Seq<char>, Val>,
> {
    match resolve(scopes, k) {
        Some(i) => scopes.update(i, scopes[i].insert(k, v)),
        None => scopes,
    }
}

/// The chain after `k` is bound to `v` in the innermost scope.
pub open spec fn declare(scopes: Seq<Map<Seq<char>, Val>>, k: Seq<char>, v: Val) -> Seq<
    Map<Seq<char>, Val>,
> {
    scopes.update(scopes.len() - 1, scopes.last().insert(k, v))
}

pub proof fn lemma_resolve_bounds(scopes: Seq<Map<Seq<char>, Val>>, k: Seq<char>)
    ensures
        resolve(scopes, k) matches Some(i) ==> 0 <= i < scopes.len() && scopes[i].contains_key(k),
        resolve(scopes, k) is None ==> forall|i: int|
            0 <= i < scopes.len() ==> !(#[trigger] scopes[i]).contains_key(k),
    decreases scopes.len(),
{
    if scopes.len() > 0 {
        lemma_resolve_bounds(scopes.drop_last(), k);
        if !scopes.last().contains_key(k) {
            assert forall|i: int| 0 <= i < scopes.len() - 1 implies scopes[i] == scopes.drop_last()[i] by {}
        }
    }
}

/// A name declared in a block's scope is gone once the block is left: the
/// chain is again the one from before the block was entered.
pub proof fn lemma_block_declaration_vanishes(
    scopes: Seq<Map<Seq<char>, Val>>,
    k: Seq<char>,
    v: Val,
)
    ensures
        declare(scopes.push(Map::empty()), k, v).drop_last() == scopes,
        lookup(scopes, k) is None ==> lookup(declare(scopes.push(Map::empty()), k, v).drop_last(), k)
            is None,
{
    assert(declare(scopes.push(Map::empty()), k, v).drop_last() =~= scopes);
}

/// Assignment never creates a binding: every scope binds the same names
/// after it as before.
pub proof fn lemma_assign_creates_no_binding(
    scopes: Seq<Map<Seq<char>, Val>>,
    k: Seq<char>,
    v: Val,
)
    ensures
        reassign(scopes, k, v).len() == scopes.len(),
        forall|i: int|
            0 <= i < scopes.len() ==> (#[trigger] reassign(scopes, k, v)[i]).dom() == scopes[i].dom(),
{
    lemma_resolve_bounds(scopes, k);
    assert forall|i: int| 0 <= i < scopes.len() implies (#[trigger] reassign(scopes, k, v)[i]).dom()
        == scopes[i].dom() by {
        if let Some(j) = resolve(scopes, k) {
            if i == j {
                assert(scopes[i].insert(k, v).dom() =~= scopes[i].dom());
            }
        }
    }
}

/// A chain of lexical scopes, from the global scope (first) to the innermost
/// block scope (last).
pub struct Environment {
    scopes: Vec<Scope>,
}

impl View for Environment {
    type V = Seq<Map<Seq<char>, Val>>;

    closed spec fn view(&self) -> Seq<Map<Seq<char>, Val>> {
        self.scopes@.map_values(|s: Scope| bindings_map(s.bindings@))
    }
}

impl Environment {
    /// Every scope binds each name at most once, and there is a global scope.
    pub closed spec fn wf(&self) -> bool {
        &&& self.scopes@.len() >= 1
        &&& forall|i: int| 0 <= i < self.scopes@.len() ==> names_unique(#[trigger] self.scopes@[i].bindings@)
    }

    /// The global scope alone, with nothing bound.
    pub fn new() -> (r: Environment)
        ensures
            r.wf(),
            r@ == seq![Map::<Seq<char>, Val>::empty()],
    {
        let mut scopes: Vec<Scope> = Vec::new();
        scopes.push(Scope { bindings: Vec::new() });
        let r = Environment { scopes };
        assert(r@ =~= seq![Map::<Seq<char>, Val>::empty()]);
        r
    }

    /// A new empty scope whose enclosing chain is `enclosing`.
    pub fn from(enclosing: Environment) -> (r: Environment)
        requires
            enclosing.wf(),
        ensures
            r.wf(),
            r@ == enclosing@.push(Map::empty()),
    {
        let mut r = enclosing;
        r.enter_scope();
        r
    }

    /// Opens a new empty innermost scope.
    pub fn enter_scope(&mut self)
        requires
            old(self).wf(),
        ensures
            final(self).wf(),
            final(self)@ == old(self)@.push(Map::empty()),
    {
        self.scopes.push(Scope { bindings: Vec::new() });
        assert(self@ =~= old(self)@.push(Map::empty()));
    }

    /// Discards the innermost scope, unless it is the global one.
    pub fn leave_scope(&mut self)
        requires
            old(self).wf(),
        ensures
            final(self).wf(),
            old(self)@.len() > 1 ==> final(self)@ == old(self)@.drop_last(),
            old(self)@.len() <= 1 ==> final(self)@ == old(self)@,
    {
        if self.scopes.len() > 1 {
            self.scopes.pop();
            assert(self@ =~= old(self)@.drop_last());
        }
    }

    /// A separate chain with the same scopes and bindings.
    pub fn snapshot(&self) -> (r: Environment)
        requires
            self.wf(),
        ensures
            r.wf(),
            r@ == self@,
    {
        let mut scopes: Vec<Scope> = Vec::new();
        let mut i: usize = 0;
        while i < self.scopes.len()
            invariant
                self.wf(),
                i <= self.scopes@.len(),
                scopes@.len() == i,
                forall|k: int| 0 <= k < i ==> (#[trigger] scopes@[k]).bindings@ == self.scopes@[k].bindings@,
            decreases self.scopes@.len() - i,
        {
            let b = &self.scopes[i].bindings;
            let mut c: Vec<(String, Literal)> = Vec::new();
            let mut j: usize = 0;
            while j < b.len()
                invariant
                    j <= b@.len(),
                    c@ == b@.subrange(0, j as int),
                decreases b@.len() - j,
            {
                c.push((b[j].0.clone(), b[j].1.duplicate()));
                j = j + 1;
                assert(c@ =~= b@.subrange(0, j as int));
            }
            assert(c@ == b@);
            scopes.push(Scope { bindings: c });
            i = i + 1;
        }
        let r = Environment { scopes };
        assert(r@ =~= self@);
        r
    }

    /// Keeps the global scope alone.
    pub fn leave_all(&mut self)
        requires
            old(self).wf(),
        ensures
            final(self).wf(),
            final(self)@ == old(self)@.subrange(0, 1),
            final(self)@.len() == 1,
    {
        self.scopes.truncate(1);
        assert(self@ =~= old(self)@.subrange(0, 1));
    }

    /// Number of scopes in the chain, the global one included.
    pub fn depth(&self) -> (r: usize)
        ensures
            r == self@.len(),
    {
        self.scopes.len()
    }

    /// There is always a global scope.
    pub proof fn lemma_has_global_scope(&self)
        requires
            self.wf(),
        ensures
            self@.len() >= 1,
    {
    }

    /// Binds `name` to `value` in the innermost scope, replacing a binding of
    /// the same name there; enclosing scopes are left as they are.
    pub fn define(&mut self, name: &String, value: Literal)
        requires
            old(self).wf(),
        ensures
            final(self).wf(),
            old(self)@.len() >= 1,
            final(self)@.len() == old(self)@.len(),
            final(self)@.last().contains_key(name@),
            final(self)@.last()[name@] == value@,
            final(self)@ == declare(old(self)@, name@, value@),
    {
        let last = self.scopes.len() - 1;
        let mut scope = self.scopes.pop().unwrap();
        let ghost b = scope.bindings@;
        assert(names_unique(b)) by {
            assert(b == old(self).scopes@[last as int].bindings@);
        }
        match Self::position(&scope.bindings, name) {
            Some(j) => {
                proof {
                    lemma_bindings_map_update(b, j as int, value);
                }
                let key = scope.bindings[j].0.clone();
                scope.bindings.set(j, (key, value));
                assert(scope.bindings@ == b.update(j as int, (b[j as int].0, value)));
                assert(names_unique(scope.bindings@));
            },
            None => {
                scope.bindings.push((name.clone(), value));
                assert(scope.bindings@.drop_last() == b);
                assert(names_unique(scope.bindings@));
            },
        }
        self.scopes.push(scope);
        assert(self@ =~= declare(old(self)@, name@, value@));
    }

    /// Index in `b` of the binding of `k`, if it has one.
    fn position(b: &Vec<(String, Literal)>, k: &String) -> (r: Option<usize>)
        ensures
            r matches Some(j) ==> j < b@.len() && b@[j as int].0@ == k@,
            r is None ==> forall|j: int| 0 <= j < b@.len() ==> b@[j].0@ != k@,
    {
        let mut j: usize = 0;
        while j < b.len()
            invariant
                j <= b@.len(),
                forall|i: int| 0 <= i < j ==> b@[i].0@ != k@,
            decreases b@.len() - j,
        {
            if b[j].0 == *k {
                return Some(j);
            }
            j = j + 1;
        }
        None
    }

    /// The value of `name` in the innermost scope that binds it; an
    /// "undefined variable" error naming the token if no scope does.
    pub fn get(&self, name: Token) -> (r: Result<Literal, RuntimeError>)
        requires
            self.wf(),
        ensures
            lookup(self@, name.lexeme@) matches Some(v) ==> (r matches Ok(x) && x@ == v),
            lookup(self@, name.lexeme@) is None ==> (r matches Err(e) && e.token == name
                && e.message@ == undefined_message(name.lexeme@)),
    {
        let mut i = self.scopes.len();
        assert(self@.subrange(0, i as int) =~= self@);
        while i > 0
            invariant
                self.wf(),
                i <= self.scopes@.len(),
                resolve(self@, name.lexeme@) == resolve(self@.subrange(0, i as int), name.lexeme@),
            decreases i,
        {
            let ghost sub = self@.subrange(0, i as int);
            assert(sub.drop_last() == self@.subrange(0, i - 1));
            match Self::position(&self.scopes[i - 1].bindings, &name.lexeme) {
                Some(j) => {
                    proof {
                        lemma_bindings_map_at(self.scopes@[i - 1].bindings@, j as int);
                        assert(sub.last() == self@[i - 1]);
                    }
                    return Ok(self.scopes[i - 1].bindings[j].1.duplicate());
                },
                None => {
                    proof {
                        lemma_bindings_map_absent(self.scopes@[i - 1].bindings@, name.lexeme@);
                    }
                },
            }
            i = i - 1;
        }
        Err(RuntimeError::new(name.duplicate(), undefined_message_text(&name.lexeme)))
    }

    /// Gives `name` the value `value` in the innermost scope that binds it;
    /// an "undefined variable" error naming the token if no scope does, and
    /// then nothing changes. Never creates a binding.
    pub fn assign(&mut self, name: Token, value: Literal) -> (r: Result<(), RuntimeError>)
        requires
            old(self).wf(),
        ensures
            final(self).wf(),
            resolve(old(self)@, name.lexeme@) is Some ==> r is Ok && final(self)@ == reassign(
                old(self)@,
                name.lexeme@,
                value@,
            ),
            resolve(old(self)@, name.lexeme@) is None ==> (r matches Err(e) && e.token == name
                && e.message@ == undefined_message(name.lexeme@)) && final(self)@ == old(self)@,
    {
        let mut i = self.scopes.len();
        assert(self@.subrange(0, i as int) =~= self@);
        while i > 0
            invariant
                self.wf(),
                self == old(self),
                i <= self.scopes@.len(),
                resolve(self@, name.lexeme@) == resolve(self@.subrange(0, i as int), name.lexeme@),
            decreases i,
        {
            let ghost sub = self@.subrange(0, i as int);
            assert(sub.drop_last() == self@.subrange(0, i - 1));
            match Self::position(&self.scopes[i - 1].bindings, &name.lexeme) {
                Some(j) => {
                    let ghost b = self.scopes@[i - 1].bindings@;
                    proof {
                        lemma_bindings_map_at(b, j as int);
                        assert(sub.last() == self@[i - 1]);
                        lemma_bindings_map_update(b, j as int, value);
                    }
                    let mut scope = self.scopes.remove(i - 1);
                    assert(scope.bindings@ == b);
                    let key = scope.bindings[j].0.clone();
                    scope.bindings.set(j, (key, value));
                    assert(scope.bindings@ == b.update(j as int, (b[j as int].0, value)));
                    self.scopes.insert(i - 1, scope);
                    assert forall|k: int| 0 <= k < self.scopes@.len() implies names_unique(
                        #[trigger] self.scopes@[k].bindings@,
                    ) by {
                        if k != i - 1 {
                            assert(self.scopes@[k] == old(self).scopes@[k]);
                        }
                    }
                    assert(self@ =~= reassign(old(self)@, name.lexeme@, value@));
                    return Ok(());
                },
                None => {
                    proof {
                        lemma_bindings_map_absent(self.scopes@[i - 1].bindings@, name.lexeme@);
                    }
                },
            }
            i = i - 1;
        }
        Err(RuntimeError::new(name.duplicate(), undefined_message_text(&name.lexeme)))
    }
}

} // verus!
