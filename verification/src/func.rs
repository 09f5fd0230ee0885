//! Functions that can be invoked in the source, and the scope that names them.

use crate::parsing::ParseResult;
use crate::stream::{FuncTokens, Items, Lookahead, TokenStream};
use crate::syntax::{FuncHeader, HeaderSpec, Ident};
use vstd::prelude::*;

verus! {

/// The tokens of a function body, if the function was invoked with one.
pub type BodyTokens<'m, 'a, 's> = Option<&'m mut FuncTokens<Lookahead<'a, 's>>>;

/// A function that can be invoked in the source.
pub trait Function: Sized {
    /// What the function makes of an invocation.
    type Output;

    /// Whether the function, invoked with this header in this scope, may
    /// return `result` after `reads` reads of a body with these items. A
    /// function that says nothing of itself may return anything.
    open spec fn may_return(
        &self,
        header: HeaderSpec,
        body: Option<Items>,
        scope: Scope<Self>,
        result: ParseResult<Self::Output>,
        reads: nat,
    ) -> bool {
        true
    }

    /// Parse an invocation of the function. All that an implementation can do
    /// to the body is to read from it, as often as it likes.
    fn parse<'m, 'a, 's>(
        &self,
        header: &FuncHeader,
        tokens: BodyTokens<'m, 'a, 's>,
        scope: &Scope<Self>,
    ) -> (result: ParseResult<Self::Output>)
        requires
            tokens is Some ==> (*tokens->0).wf(),
        ensures
            tokens is None ==> self.may_return(header@, None, *scope, result, 0),
            tokens is Some ==> (*final(tokens->0)).wf() && exists|reads: nat|
                {
                    &&& #[trigger] self.may_return(
                        header@,
                        Some((*tokens->0).items()),
                        *scope,
                        result,
                        reads,
                    )
                    &&& (*final(tokens->0)).is_after(&*tokens->0, reads)
                },
    ;
}

/// A map from identifiers to functions.
pub struct Scope<P> {
    entries: Vec<(Ident, P)>,
}

/// The first entry with the name, or the number of entries.
spec fn find_entry<P>(entries: Seq<(Ident, P)>, name: Seq<char>) -> int
    decreases entries.len(),
{
    if entries.len() == 0 || entries[0].0@ == name {
        0
    } else {
        1 + find_entry(entries.drop_first(), name)
    }
}

/// `find_entry` is the position of the first entry with the name.
proof fn lemma_find_entry<P>(entries: Seq<(Ident, P)>, name: Seq<char>, at: int)
    requires
        0 <= at <= entries.len(),
        at < entries.len() ==> entries[at].0@ == name,
        forall|i: int| 0 <= i < at ==> (#[trigger] entries[i]).0@ != name,
    ensures
        find_entry(entries, name) == at,
    decreases entries.len(),
{
    if at > 0 {
        assert(entries[0].0@ != name);
        lemma_find_entry(entries.drop_first(), name, at - 1);
    }
}

/// The entry that `find_entry` gives has the name, and none before it has.
proof fn lemma_found<P>(entries: Seq<(Ident, P)>, name: Seq<char>)
    ensures
        0 <= find_entry(entries, name) <= entries.len(),
        find_entry(entries, name) < entries.len() ==> entries[find_entry(entries, name)].0@ == name,
        forall|i: int| 0 <= i < find_entry(entries, name) ==> (#[trigger] entries[i]).0@ != name,
    decreases entries.len(),
{
    if entries.len() > 0 && entries[0].0@ != name {
        let rest = entries.drop_first();
        lemma_found(rest, name);
        assert forall|i: int| 0 <= i < find_entry(entries, name) implies (
        #[trigger] entries[i]).0@ != name by {
            if i > 0 {
                assert(entries[i] == rest[i - 1]);
            }
        }
    }
}

impl<P> View for Scope<P> {
    type V = Map<Seq<char>, P>;

    closed spec fn view(&self) -> Map<Seq<char>, P> {
        Map::new(
            |name: Seq<char>| find_entry(self.entries@, name) < self.entries@.len(),
            |name: Seq<char>| self.entries@[find_entry(self.entries@, name)].1,
        )
    }
}

impl<P> Scope<P> {
    /// No name is given to two functions.
    #[verifier::type_invariant]
    spec fn distinct_names(self) -> bool {
        forall|i: int, j: int|
            0 <= i < j < self.entries@.len() ==> (#[trigger] self.entries@[i]).0@ != (
            #[trigger] self.entries@[j]).0@
    }

    /// Create a scope without functions.
    pub fn new() -> (scope: Scope<P>)
        ensures
            scope@ == Map::<Seq<char>, P>::empty(),
    {
        let scope = Scope { entries: Vec::new() };
        assert(scope@ =~= Map::<Seq<char>, P>::empty());
        scope
    }

    /// The position of the entry with the name, if there is one.
    fn position(&self, name: &Ident) -> (at: Option<usize>)
        ensures
            at is Some <==> self@.dom().contains(name@),
            at is Some ==> at->0 < self.entries@.len() && at->0 == find_entry(
                self.entries@,
                name@,
            ),
            at is None ==> find_entry(self.entries@, name@) == self.entries@.len(),
    {
        let mut i: usize = 0;
        while i < self.entries.len()
            invariant
                i <= self.entries@.len(),
                forall|j: int| 0 <= j < i ==> (#[trigger] self.entries@[j]).0@ != name@,
            decreases self.entries@.len() - i,
        {
            if self.entries[i].0.is(name) {
                proof {
                    lemma_find_entry(self.entries@, name@, i as int);
                }
                return Some(i);
            }
            i = i + 1;
        }
        proof {
            lemma_find_entry(self.entries@, name@, i as int);
        }
        None
    }

    /// Add a function to the scope under a name, in place of the function that
    /// had the name.
    pub fn add(&mut self, name: Ident, function: P)
        ensures
            final(self)@ == old(self)@.insert(name@, function),
    {
        proof {
            use_type_invariant(&*self);
        }
        let ghost before = *self;
        let ghost key = name@;
        let at: Option<usize> = self.position(&name);
        let mut entries: Vec<(Ident, P)> = Vec::new();
        std::mem::swap(&mut entries, &mut self.entries);
        match at {
            Some(i) => {
                entries.set(i, (name, function));
            },
            None => {
                entries.push((name, function));
            },
        }
        proof {
            lemma_found(before.entries@, key);
        }
        self.entries = entries;
        proof {
            let entries = self.entries@;
            let at = find_entry(before.entries@, key);
            assert forall|n: Seq<char>|
                (#[trigger] find_entry(entries, n) < entries.len()) == (n == key || find_entry(
                    before.entries@,
                    n,
                ) < before.entries@.len()) by {
                lemma_found(before.entries@, n);
                lemma_found(before.entries@, key);
                if n == key {
                    lemma_find_entry(entries, n, at);
                } else if find_entry(before.entries@, n) < before.entries@.len() {
                    lemma_find_entry(entries, n, find_entry(before.entries@, n));
                } else {
                    lemma_find_entry(entries, n, entries.len() as int);
                }
            }
            assert forall|n: Seq<char>| find_entry(entries, n) < entries.len() implies entries[
            #[trigger] find_entry(entries, n)].1 == before@.insert(key, function)[n] by {
                lemma_found(before.entries@, n);
                lemma_found(before.entries@, key);
                if n == key {
                    lemma_find_entry(entries, n, at);
                } else if find_entry(before.entries@, n) < before.entries@.len() {
                    lemma_find_entry(entries, n, find_entry(before.entries@, n));
                }
            }
            assert(self@ =~= before@.insert(key, function));
        }
    }

    /// The function with the name, if there is one.
    pub fn get_parser(&self, name: &Ident) -> (function: Option<&P>)
        ensures
            function is Some <==> self@.dom().contains(name@),
            function is Some ==> *function->0 == self@[name@],
    {
        match self.position(name) {
            Some(i) => Some(&self.entries[i].1),
            None => None,
        }
    }
}

}
