//! Interning of identifiers: every distinct identifier text is stored once
//! and referred to by a small integer handle.
use vstd::prelude::*;

use crate::text::{owned, str_eq};

verus! {

/// Interned identifier.
#[derive(Clone, Copy, PartialEq, Eq, Hash, Debug, Structural)]
pub struct Name {
    pub id: usize,
}

/// The identifier table shared by every HIR of a session.
pub struct Database {
    names: Vec<String>,
}

impl Database {
    /// Distinct handles denote distinct texts.
    #[verifier::type_invariant]
    spec fn names_distinct(self) -> bool {
        forall|i: int, j: int|
            0 <= i < j < self.names@.len() ==> #[trigger] self.names@[i]@ != #[trigger] self.names@[j]@
    }

    /// Number of interned identifiers.
    pub closed spec fn size(&self) -> nat {
        self.names@.len()
    }

    /// Whether `name` was handed out by this table.
    pub open spec fn knows(&self, name: Name) -> bool {
        name.id < self.size()
    }

    /// The text of an interned identifier (empty for an unknown handle).
    pub closed spec fn text_of(&self, name: Name) -> Seq<char> {
        if name.id < self.names@.len() {
            self.names@[name.id as int]@
        } else {
            Seq::empty()
        }
    }

    /// Whether some identifier of this table has text `t`.
    pub closed spec fn knows_text(&self, t: Seq<char>) -> bool {
        exists|i: int| 0 <= i < self.names@.len() && #[trigger] self.names@[i]@ == t
    }

    /// The handle of text `t` (meaningful when the table knows `t`).
    pub closed spec fn name_for(&self, t: Seq<char>) -> Name {
        Name { id: (choose|i: int| 0 <= i < self.names@.len() && #[trigger] self.names@[i]@ == t) as usize }
    }

    /// Every text known to `self` is still known to `other`, under the
    /// same handle.
    pub open spec fn grows_to(&self, other: &Database) -> bool {
        forall|t: Seq<char>|
            #[trigger] self.knows_text(t) ==> other.knows_text(t) && other.name_for(t) == self.name_for(t)
    }

    /// An empty table.
    pub fn new() -> (db: Database)
        ensures
            db.size() == 0,
    {
        Database { names: Vec::new() }
    }

    /// Returns the handle of `text`, adding it to the table when it is new.
    pub fn intern(&mut self, text: &str) -> (name: Name)
        ensures
            final(self).knows(name),
            final(self).text_of(name) == text@,
            final(self).size() >= old(self).size(),
            forall|n: Name| old(self).knows(n) ==> #[trigger] final(self).text_of(n) == old(self).text_of(n),
            forall|n: Name| old(self).knows(n) && old(self).text_of(n) == text@ ==> name == n,
            final(self).knows_text(text@),
            name == final(self).name_for(text@),
            old(self).grows_to(&*final(self)),
    {
        proof {
            use_type_invariant(&*self);
        }
        let mut i: usize = 0;
        while i < self.names.len()
            invariant
                i <= self.names@.len(),
                forall|j: int| 0 <= j < i ==> #[trigger] self.names@[j]@ != text@,
            decreases self.names@.len() - i,
        {
            if str_eq(self.names[i].as_str(), text) {
                proof {
                    use_type_invariant(&*self);
                }
                assert forall|n: Name| old(self).knows(n) && old(self).text_of(n) == text@ implies n
                    == (Name { id: i }) by {
                    if n.id != i {
                        if n.id < i {
                            assert(self.names@[n.id as int]@ != self.names@[i as int]@);
                        } else {
                            assert(self.names@[i as int]@ != self.names@[n.id as int]@);
                        }
                    }
                }
                proof {
                    let j = choose|j: int| 0 <= j < self.names@.len() && #[trigger] self.names@[j]@ == text@;
                    if j != i {
                        if j < i {
                            assert(self.names@[j]@ != self.names@[i as int]@);
                        } else {
                            assert(self.names@[i as int]@ != self.names@[j]@);
                        }
                    }
                    assert(self.names@[i as int]@ == text@);
                }
                return Name { id: i };
            }
            i = i + 1;
        }
        let id = self.names.len();
        let ghost old_names = self.names@;
        let mut names: Vec<String> = Vec::new();
        std::mem::swap(&mut names, &mut self.names);
        names.push(owned(text));
        self.names = names;
        proof {
            assert(self.names@[id as int]@ == text@);
            let j = choose|j: int| 0 <= j < self.names@.len() && #[trigger] self.names@[j]@ == text@;
            if j != id {
                assert(old_names[j]@ == text@);
            }
            assert forall|t: Seq<char>| #[trigger] old(self).knows_text(t) implies self.knows_text(t)
                && self.name_for(t) == old(self).name_for(t) by {
                let a = choose|a: int| 0 <= a < old_names.len() && #[trigger] old_names[a]@ == t;
                assert(self.names@[a]@ == t);
                let b = choose|b: int| 0 <= b < self.names@.len() && #[trigger] self.names@[b]@ == t;
                if b == id {
                    assert(old_names[a]@ == text@);
                }
                assert(old_names[b]@ == t);
                if a != b {
                    if a < b {
                        assert(old_names[a]@ != old_names[b]@);
                    } else {
                        assert(old_names[b]@ != old_names[a]@);
                    }
                }
            }
        }
        Name { id }
    }

    /// The handle of a text this table knows.
    pub fn lookup(&self, text: &str) -> (name: Name)
        requires
            self.knows_text(text@),
        ensures
            name == self.name_for(text@),
            self.knows(name),
            self.text_of(name) == text@,
    {
        proof {
            use_type_invariant(&*self);
        }
        let mut i: usize = 0;
        while i < self.names.len()
            invariant
                i <= self.names@.len(),
                self.knows_text(text@),
                forall|j: int| 0 <= j < i ==> #[trigger] self.names@[j]@ != text@,
                forall|a: int, b: int|
                    0 <= a < b < self.names@.len() ==> #[trigger] self.names@[a]@ != #[trigger] self.names@[b]@,
            decreases self.names@.len() - i,
        {
            if str_eq(self.names[i].as_str(), text) {
                proof {
                    let j = choose|j: int| 0 <= j < self.names@.len() && #[trigger] self.names@[j]@ == text@;
                    if j != i {
                        if j < i {
                            assert(self.names@[j]@ != self.names@[i as int]@);
                        } else {
                            assert(self.names@[i as int]@ != self.names@[j]@);
                        }
                    }
                }
                return Name { id: i };
            }
            i = i + 1;
        }
        proof {
            let j = choose|j: int| 0 <= j < self.names@.len() && #[trigger] self.names@[j]@ == text@;
            assert(self.names@[j]@ != text@);
        }
        Name { id: 0 }
    }

    /// The text of an interned identifier (empty for an unknown handle).
    pub fn text(&self, name: Name) -> (s: &str)
        ensures
            s@ == self.text_of(name),
    {
        if name.id < self.names.len() {
            self.names[name.id].as_str()
        } else {
            proof {
                reveal_strlit("");
            }
            ""
        }
    }
}

impl Name {
    /// Interns `text` in `db`.
    pub fn new(db: &mut Database, text: &str) -> (name: Name)
        ensures
            final(db).knows(name),
            final(db).text_of(name) == text@,
            forall|n: Name| old(db).knows(n) ==> #[trigger] final(db).text_of(n) == old(db).text_of(n),
            name == final(db).name_for(text@),
            old(db).grows_to(&*final(db)),
    {
        db.intern(text)
    }

    /// The text of this identifier.
    pub fn as_str<'a>(&self, db: &'a Database) -> (s: &'a str)
        ensures
            s@ == db.text_of(*self),
    {
        db.text(*self)
    }
}

} // verus!
